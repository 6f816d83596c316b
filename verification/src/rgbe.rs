//! Radiance `.hdr` files: the resolution line and the RGBE scanlines, flat or run-length
//! encoded per channel.
use crate::bytes::{
    digit_run, digits_value, in_bounds, lemma_word_spans, spans_view, word, word_spans,
    word_spans_exec,
};
use vstd::prelude::*;

verus! {

/// What makes an `.hdr` file unreadable.
#[derive(Debug, Clone, Copy, PartialEq, Eq)]
pub enum RgbeError {
    /// The height of the resolution line is not a number.
    Height,
    /// The width of the resolution line is not a number.
    Width,
    /// No resolution line, or a zero width or height.
    Resolution,
    /// A scanline byte ran past the end of the data.
    Truncated,
    /// A flat scanline ran past the end of the data.
    FlatScanline,
    /// A run-length scanline announces another width.
    ScanlineWidth,
    /// A run ran past the end of its scanline.
    Run,
    /// A literal ran past the end of its scanline.
    Literal,
}

// ------------------------------------------------------------------ the resolution line

/// The first newline at or after `p`.
pub open spec fn newline_from(d: Seq<u8>, p: int) -> Option<int>
    decreases d.len() - p,
{
    if p < 0 || p >= d.len() {
        None
    } else if d[p] == 0x0a {
        Some(p)
    } else {
        newline_from(d, p + 1)
    }
}

/// `usize::from_str` on the text of `t`: an optional `+` and at least one ASCII digit, with a
/// value that fits.
pub open spec fn parse_usize(t: Seq<u8>) -> Option<usize> {
    let p = if t.len() > 0 && t[0] == 0x2b {
        1int
    } else {
        0int
    };
    if p < t.len() && digit_run(t, p) == t.len() && digits_value(t, p, t.len() as int)
        <= usize::MAX {
        Some(digits_value(t, p, t.len() as int) as usize)
    } else {
        None
    }
}

/// The resolution line `-Y <height> +X <width>` among the newline-terminated lines from `p`:
/// its width, height and where the pixels start; `None` when no line has that shape.
pub open spec fn resolution_from(d: Seq<u8>, p: int) -> Result<Option<(usize, usize, int)>, RgbeError>
    decreases d.len() - p,
{
    match newline_from(d, p) {
        None => Ok(None),
        Some(end) => {
            let line = d.subrange(p, end);
            let t = word_spans(line, 0);
            if t.len() == 4 && word(line, t[0]) == seq![0x2du8, 0x59u8] && word(line, t[2])
                == seq![0x2bu8, 0x58u8] {
                match parse_usize(word(line, t[1])) {
                    None => Err(RgbeError::Height),
                    Some(h) => match parse_usize(word(line, t[3])) {
                        None => Err(RgbeError::Width),
                        Some(w) => Ok(Some((w, h, end + 1))),
                    },
                }
            } else {
                proof {
                    lemma_newline_from_bounds(d, p);
                }
                resolution_from(d, end + 1)
            }
        },
    }
}

pub proof fn lemma_newline_from_bounds(d: Seq<u8>, p: int)
    ensures
        newline_from(d, p) matches Some(e) ==> p <= e < d.len() && d[e] == 0x0a,
    decreases d.len() - p,
{
    if 0 <= p < d.len() && d[p] != 0x0a {
        lemma_newline_from_bounds(d, p + 1);
    }
}

/// The image size and where its pixels start.
pub open spec fn rgbe_header(d: Seq<u8>) -> Result<(usize, usize, int), RgbeError> {
    match resolution_from(d, 0) {
        Err(e) => Err(e),
        Ok(None) => Err(RgbeError::Resolution),
        Ok(Some((w, h, p))) => if w == 0 || h == 0 {
            Err(RgbeError::Resolution)
        } else {
            Ok((w, h, p))
        },
    }
}

// ------------------------------------------------------------------ scanlines

/// One channel of a run-length scanline from `x` on, its values so far `vals`: a count byte
/// above 128 repeats the next byte `count - 128` times, any other count copies that many
/// bytes.
pub open spec fn channel_from(d: Seq<u8>, w: int, p: int, x: int, vals: Seq<u8>) -> Result<
    (Seq<u8>, int),
    RgbeError,
>
    decreases d.len() - p,
{
    if x >= w {
        Ok((vals, p))
    } else if p < 0 || p >= d.len() {
        Err(RgbeError::Truncated)
    } else {
        let count = d[p] as int;
        if count > 128 {
            if p + 1 >= d.len() {
                Err(RgbeError::Truncated)
            } else if x + (count - 128) > w {
                Err(RgbeError::Run)
            } else {
                channel_from(
                    d,
                    w,
                    p + 2,
                    x + (count - 128),
                    vals + Seq::new((count - 128) as nat, |k: int| d[p + 1]),
                )
            }
        } else {
            let avail = d.len() - (p + 1);
            let slots = w - x;
            if avail < count && avail <= slots {
                Err(RgbeError::Truncated)
            } else if slots < count {
                Err(RgbeError::Literal)
            } else {
                channel_from(d, w, p + 1 + count, x + count, vals + d.subrange(p + 1, p + 1 + count))
            }
        }
    }
}

/// The four channels of a run-length scanline that start at `p`, one after another.
pub open spec fn channels_from(d: Seq<u8>, w: int, p: int, c: int, chans: Seq<Seq<u8>>) -> Result<
    (Seq<Seq<u8>>, int),
    RgbeError,
>
    decreases 4 - c,
{
    if c >= 4 {
        Ok((chans, p))
    } else {
        match channel_from(d, w, p, 0, seq![]) {
            Err(e) => Err(e),
            Ok((vals, q)) => channels_from(d, w, q, c + 1, chans.push(vals)),
        }
    }
}

/// Four channels of `w` values interleaved into RGBE pixels.
pub open spec fn interleave(chans: Seq<Seq<u8>>, w: int) -> Seq<u8> {
    Seq::new((4 * w) as nat, |i: int| chans[i % 4][i / 4])
}

/// A flat scanline: `4 w` bytes as they are.
pub open spec fn flat_row(d: Seq<u8>, w: int, p: int) -> Result<(Seq<u8>, int), RgbeError> {
    if in_bounds(d, p, 4 * w) {
        Ok((d.subrange(p, p + 4 * w), p + 4 * w))
    } else {
        Err(RgbeError::FlatScanline)
    }
}

/// The scanline at `p`: run-length encoded when the width is between 8 and 32767 and it
/// starts with `2 2` and a width word without its top bit, else flat.
pub open spec fn scanline(d: Seq<u8>, w: int, p: int) -> Result<(Seq<u8>, int), RgbeError> {
    if !(8 <= w <= 0x7fff) {
        flat_row(d, w, p)
    } else if !(0 <= p < d.len()) {
        Err(RgbeError::Truncated)
    } else if d[p] != 2 {
        flat_row(d, w, p)
    } else if p + 1 >= d.len() {
        Err(RgbeError::Truncated)
    } else if d[p + 1] != 2 {
        flat_row(d, w, p)
    } else if p + 2 >= d.len() {
        Err(RgbeError::Truncated)
    } else if d[p + 2] >= 0x80 {
        flat_row(d, w, p)
    } else if p + 3 >= d.len() {
        Err(RgbeError::Truncated)
    } else if d[p + 2] as int * 256 + d[p + 3] as int != w {
        Err(RgbeError::ScanlineWidth)
    } else {
        match channels_from(d, w, p + 4, 0, seq![]) {
            Err(e) => Err(e),
            Ok((chans, q)) => Ok((interleave(chans, w), q)),
        }
    }
}

/// Scanlines `y ..` of an image of width `w` and height `h` appended to `img`.
pub open spec fn rows_from(d: Seq<u8>, w: int, h: int, p: int, y: int, img: Seq<u8>) -> Result<
    Seq<u8>,
    RgbeError,
>
    decreases h - y,
{
    if y >= h {
        Ok(img)
    } else {
        match scanline(d, w, p) {
            Err(e) => Err(e),
            Ok((row, q)) => rows_from(d, w, h, q, y + 1, img + row),
        }
    }
}

/// A whole `.hdr` file: its width, height and RGBE bytes, row after row.
pub open spec fn rgbe_file(d: Seq<u8>) -> Result<(usize, usize, Seq<u8>), RgbeError> {
    match rgbe_header(d) {
        Err(e) => Err(e),
        Ok((w, h, p)) => match rows_from(d, w as int, h as int, p, 0, seq![]) {
            Err(e) => Err(e),
            Ok(img) => Ok((w, h, img)),
        },
    }
}

/// The image fits in memory as the loader allocates it.
pub open spec fn rgbe_fits(d: Seq<u8>) -> bool {
    rgbe_header(d) matches Ok((w, h, _)) ==> w * h * 4 <= usize::MAX
}


// ------------------------------------------------------------------ reading

fn find_newline(d: &[u8], p: usize) -> (r: Option<usize>)
    ensures
        match r {
            Some(e) => newline_from(d@, p as int) == Some(e as int),
            None => newline_from(d@, p as int) is None,
        },
{
    let mut k = p;
    while k < d.len()
        invariant
            p <= k,
            newline_from(d@, p as int) == newline_from(d@, k as int),
        decreases d@.len() - k,
    {
        if d[k] == 0x0a {
            return Some(k);
        }
        k = k + 1;
    }
    None
}

fn parse_usize_exec(t: &[u8]) -> (r: Option<usize>)
    ensures
        r == parse_usize(t@),
{
    let p: usize = if t.len() > 0 && t[0] == 0x2b {
        1
    } else {
        0
    };
    if p >= t.len() {
        return None;
    }
    let mut k = p;
    let mut value: usize = 0;
    let mut overflow = false;
    while k < t.len()
        invariant
            p <= k <= t@.len(),
            p < t@.len(),
            p == (if t@.len() > 0 && t@[0] == 0x2b {
                1int
            } else {
                0int
            }),
            forall|j: int| p <= j < k ==> 0x30 <= #[trigger] t@[j] <= 0x39,
            digit_run(t@, p as int) == digit_run(t@, k as int),
            overflow ==> digits_value(t@, p as int, k as int) > usize::MAX,
            !overflow ==> value == digits_value(t@, p as int, k as int),
        decreases t@.len() - k,
    {
        let c = t[k];
        if c < 0x30 || c > 0x39 {
            assert(digit_run(t@, k as int) == k);
            return None;
        }
        let digit = (c - 0x30) as usize;
        if overflow || value > (usize::MAX - digit) / 10 {
            overflow = true;
        } else {
            value = value * 10 + digit;
        }
        k = k + 1;
    }
    if overflow {
        None
    } else {
        Some(value)
    }
}

/// Reads the resolution line: the image width, height and where its pixels start.
pub fn read_rgbe_header(d: &[u8]) -> (r: Result<(usize, usize, usize), RgbeError>)
    ensures
        match r {
            Ok((w, h, p)) => rgbe_header(d@) == Ok::<_, RgbeError>((w, h, p as int)) && p <= d@.len(),
            Err(e) => rgbe_header(d@) == Err::<(usize, usize, int), _>(e),
        },
{
    let mut p: usize = 0;
    loop
        invariant
            p <= d@.len(),
            d@.len() == d.len(),
            resolution_from(d@, 0) == resolution_from(d@, p as int),
        decreases d@.len() - p,
    {
        let end = match find_newline(d, p) {
            Some(e) => e,
            None => return Err(RgbeError::Resolution),
        };
        proof {
            lemma_newline_from_bounds(d@, p as int);
        }
        let line = vstd::slice::slice_subrange(d, p, end);
        let t = word_spans_exec(line, 0);
        proof {
            lemma_word_spans(line@, 0);
            assert forall|k: int| 0 <= k < t@.len() implies #[trigger] t@[k].0 <= t@[k].1
                <= line@.len() by {
                assert(spans_view(t@)[k] == (t@[k].0 as int, t@[k].1 as int));
            }
        }
        let is_line = t.len() == 4 && {
            let (a0, b0) = t[0];
            let (a2, b2) = t[2];
            b0 - a0 == 2 && line[a0] == 0x2d && line[a0 + 1] == 0x59 && b2 - a2 == 2 && line[a2]
                == 0x2b && line[a2 + 1] == 0x58
        };
        proof {
            if t@.len() == 4 {
                let r0 = spans_view(t@)[0];
                let r2 = spans_view(t@)[2];
                assert(r0 == (t@[0].0 as int, t@[0].1 as int));
                assert(r2 == (t@[2].0 as int, t@[2].1 as int));
                let k0 = word(line@, r0);
                let k2 = word(line@, r2);
                if is_line {
                    assert(k0 =~= seq![0x2du8, 0x59u8]);
                    assert(k2 =~= seq![0x2bu8, 0x58u8]);
                } else {
                    if k0 == seq![0x2du8, 0x59u8] && k2 == seq![0x2bu8, 0x58u8] {
                        assert(k0.len() == 2 && k0[0] == 0x2d && k0[1] == 0x59);
                        assert(k2.len() == 2 && k2[0] == 0x2b && k2[1] == 0x58);
                    }
                }
            }
        }
        if is_line {
            let (a1, b1) = t[1];
            let (a3, b3) = t[3];
            proof {
                assert(spans_view(t@)[1] == (a1 as int, b1 as int));
                assert(spans_view(t@)[3] == (a3 as int, b3 as int));
            }
            let h = match parse_usize_exec(vstd::slice::slice_subrange(line, a1, b1)) {
                Some(h) => h,
                None => return Err(RgbeError::Height),
            };
            let w = match parse_usize_exec(vstd::slice::slice_subrange(line, a3, b3)) {
                Some(w) => w,
                None => return Err(RgbeError::Width),
            };
            if w == 0 || h == 0 {
                return Err(RgbeError::Resolution);
            }
            return Ok((w, h, end + 1));
        }
        p = end + 1;
    }
}


/// One run-length channel of a scanline of width `w` starting at `p`.
fn read_channel(d: &[u8], w: usize, p: usize) -> (r: Result<(Vec<u8>, usize), RgbeError>)
    requires
        p <= d@.len(),
    ensures
        match r {
            Ok((v, q)) => channel_from(d@, w as int, p as int, 0, seq![]) == Ok::<_, RgbeError>(
                (v@, q as int),
            ) && q <= d@.len() && v@.len() == w,
            Err(e) => channel_from(d@, w as int, p as int, 0, seq![]) == Err::<(Seq<u8>, int), _>(
                e,
            ),
        },
{
    assert(d@.len() == d.len());
    let mut vals: Vec<u8> = Vec::new();
    let mut x: usize = 0;
    let mut q = p;
    while x < w
        invariant
            d@.len() == d.len(),
            x <= w,
            vals@.len() == x,
            q <= d@.len(),
            channel_from(d@, w as int, p as int, 0, seq![]) == channel_from(
                d@,
                w as int,
                q as int,
                x as int,
                vals@,
            ),
        decreases d@.len() - q,
    {
        if q >= d.len() {
            return Err(RgbeError::Truncated);
        }
        let count = d[q] as usize;
        if count > 128 {
            if q + 1 >= d.len() {
                return Err(RgbeError::Truncated);
            }
            let n = count - 128;
            if n > w - x {
                return Err(RgbeError::Run);
            }
            let value = d[q + 1];
            let ghost before = vals@;
            let mut k: usize = 0;
            while k < n
                invariant
                    k <= n,
                    vals@ == before + Seq::new(k as nat, |j: int| value),
                decreases n - k,
            {
                vals.push(value);
                k = k + 1;
                assert(vals@ =~= before + Seq::new(k as nat, |j: int| value));
            }
            assert(Seq::new(n as nat, |j: int| value) =~= Seq::new(
                (d@[q as int] as int - 128) as nat,
                |j: int| d@[q + 1],
            ));
            x = x + n;
            q = q + 2;
        } else {
            let avail = d.len() - (q + 1);
            let slots = w - x;
            if avail < count && avail <= slots {
                return Err(RgbeError::Truncated);
            }
            if slots < count {
                return Err(RgbeError::Literal);
            }
            let ghost before = vals@;
            let mut k: usize = 0;
            while k < count
                invariant
                    d@.len() == d.len(),
                    k <= count,
                    q + 1 + count <= d@.len(),
                    vals@ == before + d@.subrange(q + 1, q + 1 + k),
                decreases count - k,
            {
                vals.push(d[q + 1 + k]);
                k = k + 1;
                assert(vals@ =~= before + d@.subrange(q + 1, q + 1 + k));
            }
            x = x + count;
            q = q + 1 + count;
        }
    }
    Ok((vals, q))
}

/// The four channels of a run-length scanline interleaved into its RGBE bytes.
fn read_rle_row(d: &[u8], w: usize, p: usize) -> (r: Result<(Vec<u8>, usize), RgbeError>)
    requires
        p <= d@.len(),
        4 * w <= usize::MAX,
    ensures
        match r {
            Ok((row, q)) => channels_from(d@, w as int, p as int, 0, seq![]) matches Ok((chans, q2))
                && q2 == q && row@ == interleave(chans, w as int) && q <= d@.len(),
            Err(e) => channels_from(d@, w as int, p as int, 0, seq![]) == Err::<
                (Seq<Seq<u8>>, int),
                _,
            >(e),
        },
{
    let ghost wi = w as int;
    let (c0, q0) = read_channel(d, w, p)?;
    assert(channels_from(d@, wi, p as int, 0, seq![]) == channels_from(d@, wi, q0 as int, 1, seq![c0@]));
    let (c1, q1) = match read_channel(d, w, q0) {
        Ok(x) => x,
        Err(e) => {
            assert(channels_from(d@, wi, q0 as int, 1, seq![c0@]) == Err::<(Seq<Seq<u8>>, int), _>(e));
            return Err(e);
        },
    };
    assert(channels_from(d@, wi, q0 as int, 1, seq![c0@]) == channels_from(d@, wi, q1 as int, 2, seq![c0@].push(c1@)));
    assert(seq![c0@].push(c1@) =~= seq![c0@, c1@]);
    let (c2, q2) = match read_channel(d, w, q1) {
        Ok(x) => x,
        Err(e) => {
            assert(channels_from(d@, wi, q1 as int, 2, seq![c0@, c1@]) == Err::<(Seq<Seq<u8>>, int), _>(e));
            return Err(e);
        },
    };
    assert(channels_from(d@, wi, q1 as int, 2, seq![c0@, c1@]) == channels_from(d@, wi, q2 as int, 3, seq![c0@, c1@].push(c2@)));
    assert(seq![c0@, c1@].push(c2@) =~= seq![c0@, c1@, c2@]);
    let (c3, q3) = match read_channel(d, w, q2) {
        Ok(x) => x,
        Err(e) => {
            assert(channels_from(d@, wi, q2 as int, 3, seq![c0@, c1@, c2@]) == Err::<(Seq<Seq<u8>>, int), _>(e));
            return Err(e);
        },
    };
    let ghost chans = seq![c0@, c1@, c2@, c3@];
    assert(seq![c0@] =~= Seq::<Seq<u8>>::empty().push(c0@));
    assert(seq![c0@, c1@] =~= seq![c0@].push(c1@));
    assert(seq![c0@, c1@, c2@] =~= seq![c0@, c1@].push(c2@));
    assert(chans =~= seq![c0@, c1@, c2@].push(c3@));
    assert(channels_from(d@, wi, q2 as int, 3, seq![c0@, c1@, c2@]) == channels_from(d@, wi, q3 as int, 4, seq![c0@, c1@, c2@].push(c3@)));
    assert(channels_from(d@, wi, q3 as int, 4, chans) == Ok::<_, RgbeError>((chans, q3 as int)));
    assert(channels_from(d@, w as int, p as int, 0, seq![]) == Ok::<_, RgbeError>((chans, q3 as int)));
    let mut row: Vec<u8> = Vec::new();
    let mut x: usize = 0;
    while x < w
        invariant
            x <= w,
            4 * w <= usize::MAX,
            c0@.len() == w && c1@.len() == w && c2@.len() == w && c3@.len() == w,
            chans == seq![c0@, c1@, c2@, c3@],
            row@ =~= Seq::new((4 * x) as nat, |i: int| chans[i % 4][i / 4]),
        decreases w - x,
    {
        row.push(c0[x]);
        row.push(c1[x]);
        row.push(c2[x]);
        row.push(c3[x]);
        x = x + 1;
        assert forall|i: int| 0 <= i < 4 * x implies #[trigger] row@[i] == chans[i % 4][i / 4] by {
            if i >= 4 * (x - 1) {
                assert(i / 4 == x - 1);
            }
        }
        assert(row@ =~= Seq::new((4 * x) as nat, |i: int| chans[i % 4][i / 4]));
    }
    Ok((row, q3))
}

/// The scanline at `p`.
fn read_scanline(d: &[u8], w: usize, p: usize) -> (r: Result<(Vec<u8>, usize), RgbeError>)
    requires
        p <= d@.len(),
        4 * w <= usize::MAX,
    ensures
        match r {
            Ok((row, q)) => scanline(d@, w as int, p as int) == Ok::<_, RgbeError>(
                (row@, q as int),
            ) && q <= d@.len(),
            Err(e) => scanline(d@, w as int, p as int) == Err::<(Seq<u8>, int), _>(e),
        },
{
    assert(d@.len() == d.len());
    let rle = if !(8 <= w && w <= 0x7fff) {
        false
    } else {
        if p >= d.len() {
            return Err(RgbeError::Truncated);
        }
        if d[p] != 2 {
            false
        } else {
            if p + 1 >= d.len() {
                return Err(RgbeError::Truncated);
            }
            if d[p + 1] != 2 {
                false
            } else {
                if p + 2 >= d.len() {
                    return Err(RgbeError::Truncated);
                }
                d[p + 2] < 0x80
            }
        }
    };
    if !rle {
        let n = 4 * w;
        if n > d.len() - p {
            return Err(RgbeError::FlatScanline);
        }
        let mut row: Vec<u8> = Vec::new();
        let mut k: usize = 0;
        while k < n
            invariant
                d@.len() == d.len(),
                k <= n,
                p + n <= d@.len(),
                row@ == d@.subrange(p as int, p + k),
            decreases n - k,
        {
            row.push(d[p + k]);
            k = k + 1;
            assert(row@ =~= d@.subrange(p as int, p + k));
        }
        return Ok((row, p + n));
    }
    if p + 3 >= d.len() {
        return Err(RgbeError::Truncated);
    }
    let announced = (d[p + 2] as usize) * 256 + d[p + 3] as usize;
    if announced != w {
        return Err(RgbeError::ScanlineWidth);
    }
    read_rle_row(d, w, p + 4)
}

/// Reads an `.hdr` image: width, height and its RGBE bytes row by row, each row flat or run-
/// length encoded per channel.
pub fn parse_rgbe(d: &[u8]) -> (r: Result<(usize, usize, Vec<u8>), RgbeError>)
    requires
        rgbe_fits(d@),
    ensures
        match r {
            Ok((w, h, img)) => rgbe_file(d@) == Ok::<_, RgbeError>((w, h, img@)),
            Err(e) => rgbe_file(d@) == Err::<(usize, usize, Seq<u8>), _>(e),
        },
{
    let (w, h, p0) = read_rgbe_header(d)?;
    assert(4 * w <= usize::MAX) by (nonlinear_arith)
        requires
            w * h * 4 <= usize::MAX,
            h >= 1,
    ;
    let mut img: Vec<u8> = Vec::new();
    let mut p = p0;
    let mut y: usize = 0;
    while y < h
        invariant
            y <= h,
            p <= d@.len(),
            4 * w <= usize::MAX,
            rgbe_header(d@) == Ok::<_, RgbeError>((w, h, p0 as int)),
            rows_from(d@, w as int, h as int, p0 as int, 0, seq![]) == rows_from(
                d@,
                w as int,
                h as int,
                p as int,
                y as int,
                img@,
            ),
        decreases h - y,
    {
        let (mut row, q) = read_scanline(d, w, p)?;
        img.append(&mut row);
        p = q;
        y = y + 1;
    }
    Ok((w, h, img))
}


// ------------------------------------------------------------------ the width word

/// Decoding a channel never complains about the scanline's width.
proof fn lemma_channel_width_ok(d: Seq<u8>, w: int, p: int, x: int, vals: Seq<u8>)
    ensures
        channel_from(d, w, p, x, vals) != Err::<(Seq<u8>, int), _>(RgbeError::ScanlineWidth),
    decreases d.len() - p,
{
    if x < w && 0 <= p < d.len() {
        let count = d[p] as int;
        if count > 128 {
            if p + 1 < d.len() && x + (count - 128) <= w {
                lemma_channel_width_ok(
                    d,
                    w,
                    p + 2,
                    x + (count - 128),
                    vals + Seq::new((count - 128) as nat, |k: int| d[p + 1]),
                );
            }
        } else {
            let avail = d.len() - (p + 1);
            let slots = w - x;
            if !(avail < count && avail <= slots) && !(slots < count) {
                lemma_channel_width_ok(d, w, p + 1 + count, x + count, vals + d.subrange(p + 1, p + 1 + count));
            }
        }
    }
}

/// Decoding the four channels never complains about the scanline's width.
proof fn lemma_channels_width_ok(d: Seq<u8>, w: int, p: int, c: int, chans: Seq<Seq<u8>>)
    ensures
        channels_from(d, w, p, c, chans) != Err::<(Seq<Seq<u8>>, int), _>(RgbeError::ScanlineWidth),
    decreases 4 - c,
{
    if c < 4 {
        lemma_channel_width_ok(d, w, p, 0, seq![]);
        if let Ok((vals, q)) = channel_from(d, w, p, 0, seq![]) {
            lemma_channels_width_ok(d, w, q, c + 1, chans.push(vals));
        }
    }
}

/// A run-length scanline starts `2 2 hi lo` with `hi` below `0x80`, and the big-endian word
/// `hi lo` is its width: for an image of width 8 to 32767 such a scanline is refused for
/// its width exactly when `256 hi + lo` differs from the image width.
pub proof fn lemma_rle_width_word(d: Seq<u8>, w: int, p: int)
    requires
        8 <= w <= 0x7fff,
        0 <= p,
        p + 3 < d.len(),
        d[p] == 2 && d[p + 1] == 2,
        d[p + 2] < 0x80,
    ensures
        (scanline(d, w, p) == Err::<(Seq<u8>, int), _>(RgbeError::ScanlineWidth)) <==> (d[p + 2]
            as int) * 256 + (d[p + 3] as int) != w,
{
    lemma_channels_width_ok(d, w, p + 4, 0, seq![]);
}

/// Value `j` of `vals` is spelled at `q + 2 j` as a run of one: `129` and the value.
pub open spec fn run_of_one(d: Seq<u8>, q: int, vals: Seq<u8>, j: int) -> bool {
    d[q + 2 * j] == 129 && d[q + 2 * j + 1] == vals[j]
}

/// The bytes from `q` on spell `vals` as runs of one: each value `v` as `129 v`.
pub open spec fn single_runs_at(d: Seq<u8>, q: int, vals: Seq<u8>) -> bool {
    &&& 0 <= q
    &&& q + 2 * vals.len() <= d.len()
    &&& forall|j: int| 0 <= j < vals.len() ==> #[trigger] run_of_one(d, q, vals, j)
}

/// A channel spelled as runs of one from `q` decodes, from value `x` on, to its values.
proof fn lemma_single_runs_channel(d: Seq<u8>, w: int, q: int, x: int, target: Seq<u8>)
    requires
        0 <= x <= w,
        target.len() == w,
        single_runs_at(d, q, target),
    ensures
        channel_from(d, w, q + 2 * x, x, target.subrange(0, x)) == Ok::<(Seq<u8>, int), RgbeError>(
            (target, q + 2 * w),
        ),
    decreases w - x,
{
    if x == w {
        assert(target.subrange(0, x) =~= target);
    } else {
        assert(run_of_one(d, q, target, x));
        let p = q + 2 * x;
        assert(d[p] == 129 && d[p + 1] == target[x]);
        let next = target.subrange(0, x) + Seq::new(1, |k: int| d[p + 1]);
        assert(next =~= target.subrange(0, x + 1));
        assert(q + 2 * (x + 1) == p + 2);
        lemma_single_runs_channel(d, w, q, x + 1, target);
    }
}

/// A channel of `w` values spelled as runs of one decodes to them from its first byte.
proof fn lemma_single_runs_whole(d: Seq<u8>, w: int, q: int, vals: Seq<u8>)
    requires
        vals.len() == w,
        single_runs_at(d, q, vals),
    ensures
        channel_from(d, w, q, 0, seq![]) == Ok::<(Seq<u8>, int), RgbeError>((vals, q + 2 * w)),
{
    assert(vals.subrange(0, 0) =~= seq![]);
    lemma_single_runs_channel(d, w, q, 0, vals);
}

/// A run-length scanline decodes to the pixels its channels spell: for an image of width `w`
/// from 8 to 32767, the bytes `2 2 hi lo` with `256 hi + lo == w`, then the red, green, blue
/// and exponent channels, each as runs of one, give `w` pixels whose pixel `k` is
/// `(r[k], g[k], b[k], e[k])`, and the next scanline starts right after the exponent channel.
pub proof fn lemma_rle_scanline_decodes(
    d: Seq<u8>,
    w: int,
    p: int,
    r: Seq<u8>,
    g: Seq<u8>,
    b: Seq<u8>,
    e: Seq<u8>,
)
    requires
        8 <= w <= 0x7fff,
        0 <= p,
        r.len() == w && g.len() == w && b.len() == w && e.len() == w,
        d.len() > p + 3,
        d[p] == 2 && d[p + 1] == 2,
        d[p + 2] as int == w / 256 && d[p + 3] as int == w % 256,
        single_runs_at(d, p + 4, r),
        single_runs_at(d, p + 4 + 2 * w, g),
        single_runs_at(d, p + 4 + 4 * w, b),
        single_runs_at(d, p + 4 + 6 * w, e),
    ensures
        scanline(d, w, p) matches Ok((row, q)) && q == p + 4 + 8 * w && row.len() == 4 * w
            && forall|k: int|
            0 <= k < w ==> #[trigger] row[4 * k] == r[k] && row[4 * k + 1] == g[k] && row[4 * k
                + 2] == b[k] && row[4 * k + 3] == e[k],
{
    lemma_single_runs_whole(d, w, p + 4, r);
    lemma_single_runs_whole(d, w, p + 4 + 2 * w, g);
    lemma_single_runs_whole(d, w, p + 4 + 4 * w, b);
    lemma_single_runs_whole(d, w, p + 4 + 6 * w, e);
    let chans = seq![r, g, b, e];
    let c1 = seq![].push(r);
    let c2 = c1.push(g);
    let c3 = c2.push(b);
    let c4 = c3.push(e);
    assert(c4 =~= chans);
    assert(channels_from(d, w, p + 4 + 8 * w, 4, c4) == Ok::<(Seq<Seq<u8>>, int), RgbeError>(
        (c4, p + 4 + 8 * w),
    ));
    assert(channels_from(d, w, p + 4 + 6 * w, 3, c3) == channels_from(d, w, p + 4 + 8 * w, 4, c4));
    assert(channels_from(d, w, p + 4 + 4 * w, 2, c2) == channels_from(d, w, p + 4 + 6 * w, 3, c3));
    assert(channels_from(d, w, p + 4 + 2 * w, 1, c1) == channels_from(d, w, p + 4 + 4 * w, 2, c2));
    assert(channels_from(d, w, p + 4, 0, seq![]) == channels_from(d, w, p + 4 + 2 * w, 1, c1));
    assert(channels_from(d, w, p + 4, 0, seq![]) == Ok::<(Seq<Seq<u8>>, int), RgbeError>(
        (chans, p + 4 + 8 * w),
    ));
    let row = interleave(chans, w);
    assert forall|k: int| 0 <= k < w implies #[trigger] row[4 * k] == r[k] && row[4 * k + 1]
        == g[k] && row[4 * k + 2] == b[k] && row[4 * k + 3] == e[k] by {
        assert((4 * k) % 4 == 0 && (4 * k) / 4 == k) by (nonlinear_arith);
        assert((4 * k + 1) % 4 == 1 && (4 * k + 1) / 4 == k) by (nonlinear_arith);
        assert((4 * k + 2) % 4 == 2 && (4 * k + 2) / 4 == k) by (nonlinear_arith);
        assert((4 * k + 3) % 4 == 3 && (4 * k + 3) / 4 == k) by (nonlinear_arith);
    }
}


// ------------------------------------------------------------------ the size law

proof fn lemma_channel_len(d: Seq<u8>, w: int, p: int, x: int, vals: Seq<u8>)
    requires
        0 <= x <= w,
        vals.len() == x,
    ensures
        channel_from(d, w, p, x, vals) matches Ok((v, _)) ==> v.len() == w,
    decreases d.len() - p,
{
    if x >= w {
    } else if p < 0 || p >= d.len() {
    } else {
        let count = d[p] as int;
        if count > 128 {
            if p + 1 < d.len() && x + (count - 128) <= w {
                lemma_channel_len(
                    d,
                    w,
                    p + 2,
                    x + (count - 128),
                    vals + Seq::new((count - 128) as nat, |k: int| d[p + 1]),
                );
            }
        } else {
            let avail = d.len() - (p + 1);
            let slots = w - x;
            if !(avail < count && avail <= slots) && !(slots < count) {
                lemma_channel_len(d, w, p + 1 + count, x + count, vals + d.subrange(p + 1, p + 1 + count));
            }
        }
    }
}

proof fn lemma_channels_len(d: Seq<u8>, w: int, p: int, c: int, chans: Seq<Seq<u8>>)
    requires
        0 <= w,
        0 <= c <= 4,
        chans.len() == c,
        forall|k: int| 0 <= k < c ==> (#[trigger] chans[k]).len() == w,
    ensures
        channels_from(d, w, p, c, chans) matches Ok((cs, _)) ==> cs.len() == 4 && forall|k: int|
            0 <= k < 4 ==> (#[trigger] cs[k]).len() == w,
    decreases 4 - c,
{
    if c < 4 {
        lemma_channel_len(d, w, p, 0, seq![]);
        if let Ok((vals, q)) = channel_from(d, w, p, 0, seq![]) {
            let next = chans.push(vals);
            assert forall|k: int| 0 <= k < c + 1 implies (#[trigger] next[k]).len() == w by {
                if k < c {
                    assert(next[k] == chans[k]);
                }
            }
            lemma_channels_len(d, w, q, c + 1, next);
        }
    }
}

proof fn lemma_scanline_len(d: Seq<u8>, w: int, p: int)
    requires
        0 <= w,
    ensures
        scanline(d, w, p) matches Ok((row, _)) ==> row.len() == 4 * w,
{
    lemma_channels_len(d, w, p + 4, 0, seq![]);
}

proof fn lemma_rows_len(d: Seq<u8>, w: int, h: int, p: int, y: int, img: Seq<u8>)
    requires
        0 <= w,
        0 <= y <= h,
        img.len() == 4 * w * y,
    ensures
        rows_from(d, w, h, p, y, img) matches Ok(out) ==> out.len() == 4 * w * h,
    decreases h - y,
{
    if y < h {
        lemma_scanline_len(d, w, p);
        if let Ok((row, q)) = scanline(d, w, p) {
            assert((img + row).len() == 4 * w * (y + 1)) by (nonlinear_arith)
                requires
                    img.len() == 4 * w * y,
                    row.len() == 4 * w,
                    (img + row).len() == img.len() + row.len(),
            ;
            lemma_rows_len(d, w, h, q, y + 1, img + row);
        }
    }
}

/// A decoded image has four bytes for each of its `width × height` pixels.
pub proof fn lemma_rgbe_image_size(d: Seq<u8>)
    ensures
        rgbe_file(d) matches Ok((w, h, img)) ==> img.len() == w * h * 4,
{
    if let Ok((w, h, p)) = rgbe_header(d) {
        lemma_rows_len(d, w as int, h as int, p, 0, seq![]);
        assert(4 * w * h == w * h * 4) by (nonlinear_arith);
    }
}

} // verus!
