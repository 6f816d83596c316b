//! Wavefront OBJ text: faces fanned into triangles of vertex, normal and texture-coordinate
//! indices, objects, and the `usemtl` material groups over each object's vertices.
use crate::bytes::{
    digit_run, digits_value, find_byte, find_byte_from, lemma_find_byte, lemma_word_end,
    lemma_word_spans, skip_ws, spans_view, trim_span, trimmed_from, word, word_end,
    word_end_from, word_spans, word_spans_exec, ws_run,
};
use vstd::prelude::*;

verus! {

// ------------------------------------------------------------------ the text

/// `str::replace` of the two-byte pattern `a b`, by `b` alone when `keep` holds and by
/// nothing otherwise; matches are taken from the left and do not overlap.
pub open spec fn replace_pair(d: Seq<u8>, a: u8, b: u8, keep: bool) -> Seq<u8>
    decreases d.len(),
{
    if d.len() == 0 {
        d
    } else if d.len() >= 2 && d[0] == a && d[1] == b {
        (if keep {
            seq![b]
        } else {
            Seq::<u8>::empty()
        }) + replace_pair(d.subrange(2, d.len() as int), a, b, keep)
    } else {
        seq![d[0]] + replace_pair(d.subrange(1, d.len() as int), a, b, keep)
    }
}

/// The text the loader reads lines from: `\r\n` made `\n`, then each backslash that ends a
/// line joined to the next line.
pub open spec fn obj_text(d: Seq<u8>) -> Seq<u8> {
    replace_pair(replace_pair(d, 0x0d, 0x0a, true), 0x5c, 0x0a, false)
}

/// Replaces each `a b` by `b` (`keep`) or by nothing, from the left.
fn replace_pair_exec(d: &[u8], a: u8, b: u8, keep: bool) -> (r: Vec<u8>)
    ensures
        r@ == replace_pair(d@, a, b, keep),
        r.len() <= d.len(),
{
    let mut out: Vec<u8> = Vec::new();
    let mut i: usize = 0;
    assert(d@.subrange(0, d.len() as int) =~= d@);
    assert(out@ + replace_pair(d@, a, b, keep) =~= replace_pair(d@, a, b, keep));
    while i < d.len()
        invariant
            i <= d.len(),
            out@ + replace_pair(d@.subrange(i as int, d.len() as int), a, b, keep)
                == replace_pair(d@, a, b, keep),
            out.len() <= i,
        decreases d.len() - i,
    {
        let ghost rest = d@.subrange(i as int, d.len() as int);
        if d.len() - i >= 2 && d[i] == a && d[i + 1] == b {
            assert(rest.subrange(2, rest.len() as int) =~= d@.subrange(
                i + 2,
                d.len() as int,
            ));
            if keep {
                out.push(b);
            }
            proof {
                let rep = if keep {
                    seq![b]
                } else {
                    Seq::<u8>::empty()
                };
                assert(replace_pair(rest, a, b, keep) == rep + replace_pair(
                    d@.subrange(i + 2, d.len() as int),
                    a,
                    b,
                    keep,
                ));
                vstd::seq_lib::lemma_concat_associative(
                    out@.subrange(0, out.len() - (if keep { 1int } else { 0int })),
                    rep,
                    replace_pair(d@.subrange(i + 2, d.len() as int), a, b, keep),
                );
                assert(out@.subrange(0, out.len() - (if keep { 1int } else { 0int })) + rep
                    =~= out@);
            }
            i = i + 2;
        } else {
            assert(rest.subrange(1, rest.len() as int) =~= d@.subrange(
                i + 1,
                d.len() as int,
            ));
            let ghost before = out@;
            out.push(d[i]);
            proof {
                assert(replace_pair(rest, a, b, keep) == seq![d@[i as int]] + replace_pair(
                    d@.subrange(i + 1, d.len() as int),
                    a,
                    b,
                    keep,
                ));
                vstd::seq_lib::lemma_concat_associative(
                    before,
                    seq![d@[i as int]],
                    replace_pair(d@.subrange(i + 1, d.len() as int), a, b, keep),
                );
                assert(before + seq![d@[i as int]] =~= out@);
            }
            i = i + 1;
        }
    }
    assert(d@.subrange(i as int, d.len() as int) =~= Seq::<u8>::empty());
    assert(out@ + Seq::<u8>::empty() =~= out@);
    out
}


// ------------------------------------------------------------------ indices

/// `str::parse::<i64>`: an optional sign, one or more ASCII digits and nothing else, and a
/// value that fits in an `i64`.
pub open spec fn parse_i64(d: Seq<u8>) -> Option<int> {
    let p: int = if d.len() > 0 && (d[0] == 0x2d || d[0] == 0x2b) {
        1
    } else {
        0
    };
    let m: int = digits_value(d, p, d.len() as int) as int;
    let v: int = if d.len() > 0 && d[0] == 0x2d {
        -m
    } else {
        m
    };
    if p < d.len() && digit_run(d, p) == d.len() && i64::MIN <= v <= i64::MAX {
        Some(v)
    } else {
        None
    }
}

/// The 0-based element that an OBJ index names: a positive index counts from 1, a negative
/// one counts back from the `count` elements read so far, text that is no integer counts as
/// 0, and the result is clamped at 0.
pub open spec fn obj_index(d: Seq<u8>, count: nat) -> nat {
    let i: int = match parse_i64(d) {
        Some(v) => v,
        None => 0,
    };
    let r: int = if i >= 0 {
        i - 1
    } else {
        i + count
    };
    if r < 0 {
        0
    } else {
        r as nat
    }
}

/// Parses a signed decimal `i64`.
fn parse_i64_exec(d: &[u8]) -> (r: Option<i64>)
    ensures
        parse_i64(d@) == (match r {
            Some(v) => Some(v as int),
            None => None::<int>,
        }),
{
    let len = d.len();
    let neg = len > 0 && d[0] == 0x2d;
    let p: usize = if len > 0 && (d[0] == 0x2d || d[0] == 0x2b) {
        1
    } else {
        0
    };
    let mut e: usize = p;
    let mut value: u64 = 0;
    let mut big = false;
    while e < len && 0x30 <= d[e] && d[e] <= 0x39
        invariant
            p <= e <= len,
            len == d.len(),
            p <= 1,
            digit_run(d@, e as int) == digit_run(d@, p as int),
            big ==> digits_value(d@, p as int, e as int) > 0x8000_0000_0000_0000,
            !big ==> value == digits_value(d@, p as int, e as int) && value
                <= 0x8000_0000_0000_0000u64,
        decreases len - e,
    {
        let digit = (d[e] - 0x30) as u64;
        if big || value > (0x8000_0000_0000_0000u64 - digit) / 10 {
            big = true;
        } else {
            value = value * 10 + digit;
        }
        e = e + 1;
    }
    if e == p || e < len || big {
        return None;
    }
    if neg {
        if value == 0x8000_0000_0000_0000u64 {
            Some(i64::MIN)
        } else {
            Some(-(value as i64))
        }
    } else if value <= 0x7fff_ffff_ffff_ffffu64 {
        Some(value as i64)
    } else {
        None
    }
}

/// The element an OBJ index names, given how many elements were read so far.
fn obj_index_exec(d: &[u8], count: usize) -> (r: u64)
    ensures
        r as nat == obj_index(d@, count as nat),
{
    let i: i128 = match parse_i64_exec(d) {
        Some(v) => v as i128,
        None => 0,
    };
    let r: i128 = if i >= 0 {
        i - 1
    } else {
        i + count as i128
    };
    if r < 0 {
        0
    } else {
        r as u64
    }
}

/// Digits read at an offset have the value of the same digits read in place.
proof fn lemma_digits_shift(a: Seq<u8>, b: Seq<u8>, off: int, i: int, j: int)
    requires
        i <= j,
        forall|k: int| i <= k < j ==> b[k + off] == #[trigger] a[k],
    ensures
        digits_value(b, i + off, j + off) == digits_value(a, i, j),
    decreases j - i,
{
    if j > i {
        lemma_digits_shift(a, b, off, i, j - 1);
        assert(b[j - 1 + off] == a[j - 1]);
    }
}

/// A run of digits reaches the end exactly when every byte from `i` on is a digit.
proof fn lemma_digits_to_end(s: Seq<u8>, i: int)
    requires
        0 <= i <= s.len(),
    ensures
        (digit_run(s, i) == s.len()) <==> (forall|k: int| i <= k < s.len() ==> 0x30 <= #[trigger] s[k] <= 0x39),
    decreases s.len() - i,
{
    if i < s.len() {
        lemma_digits_to_end(s, i + 1);
        if digit_run(s, i) == s.len() && 0x30 <= s[i] <= 0x39 {
            assert forall|k: int| i <= k < s.len() implies 0x30 <= #[trigger] s[k] <= 0x39 by {
                if k > i {
                    assert(i + 1 <= k);
                }
            }
        }
    }
}

/// Ten to the `n`.
spec fn ten_pow(n: nat) -> nat
    decreases n,
{
    if n == 0 {
        1
    } else {
        10 * ten_pow((n - 1) as nat)
    }
}

/// Ten to a power grows with the power.
proof fn lemma_ten_pow_grows(a: nat, b: nat)
    requires
        a <= b,
    ensures
        ten_pow(a) <= ten_pow(b),
    decreases b,
{
    if a < b {
        lemma_ten_pow_grows(a, (b - 1) as nat);
    }
}

/// `n` digits have a value below ten to the `n`.
proof fn lemma_digits_below(d: Seq<u8>, i: int, j: int)
    requires
        0 <= i <= j <= d.len(),
        forall|k: int| i <= k < j ==> 0x30 <= #[trigger] d[k] <= 0x39,
    ensures
        digits_value(d, i, j) < ten_pow((j - i) as nat),
    decreases j - i,
{
    if j > i {
        lemma_digits_below(d, i, j - 1);
        assert(0x30 <= d[j - 1] <= 0x39);
    }
}

/// An OBJ index is read as a whole decimal number: a single digit is its own value, a digit
/// appended to a number `v` gives `10 v` plus that digit, a leading `-` negates it, any
/// number of up to 18 digits is read, and a positive index `v` names element `v - 1`.
pub proof fn lemma_decimal_index(t: Seq<u8>, c: u8, count: nat)
    requires
        t.len() > 0,
        forall|k: int| 0 <= k < t.len() ==> 0x30 <= #[trigger] t[k] <= 0x39,
        0x30 <= c <= 0x39,
    ensures
        parse_i64(seq![c]) == Some(c - 0x30),
        t.len() <= 18 ==> parse_i64(t) is Some,
        parse_i64(t) matches Some(v) ==> v >= 0,
        parse_i64(t) matches Some(v) ==> (10 * v + (c - 0x30) <= i64::MAX ==> parse_i64(
            t.push(c),
        ) == Some(10 * v + (c - 0x30))),
        parse_i64(t) matches Some(v) ==> parse_i64(seq![0x2du8] + t) == Some(-v),
        parse_i64(t) matches Some(v) ==> (v >= 1 ==> obj_index(t, count) == v - 1),
{
    let n = t.len() as int;
    let one = seq![c];
    assert(digits_value(one, 0, 0) == 0);
    lemma_digits_to_end(one, 0);
    lemma_digits_to_end(t, 0);
    assert(t[0] != 0x2d && t[0] != 0x2b);
    if n <= 18 {
        lemma_digits_below(t, 0, n);
        reveal_with_fuel(ten_pow, 19);
        assert(ten_pow(18) == 1_000_000_000_000_000_000nat);
        lemma_ten_pow_grows(n as nat, 18);
    }
    let t2 = t.push(c);
    lemma_digits_to_end(t2, 0);
    assert forall|k: int| 0 <= k < t2.len() implies 0x30 <= #[trigger] t2[k] <= 0x39 by {
        if k < n {
            assert(t2[k] == t[k]);
        }
    }
    lemma_digits_shift(t, t2, 0, 0, n);
    assert(t2[0] == t[0]);
    let s = seq![0x2du8] + t;
    lemma_digits_to_end(s, 1);
    assert forall|k: int| 1 <= k < s.len() implies 0x30 <= #[trigger] s[k] <= 0x39 by {
        assert(s[k] == t[k - 1]);
    }
    lemma_digits_shift(t, s, 1, 0, n);
}

/// The span of the `k`-th `/`-separated field of `d[i..]`, if it has that many.
pub open spec fn slash_field(d: Seq<u8>, i: int, k: nat) -> Option<(int, int)>
    decreases k,
{
    let q = find_byte(d, i, 0x2f);
    if k == 0 {
        Some((i, q))
    } else if q >= d.len() {
        None
    } else {
        slash_field(d, q + 1, (k - 1) as nat)
    }
}

/// A field lies inside the text it was cut from.
pub proof fn lemma_slash_field(d: Seq<u8>, i: int, k: nat)
    requires
        0 <= i <= d.len(),
    ensures
        slash_field(d, i, k) matches Some((a, b)) ==> i <= a <= b <= d.len(),
    decreases k,
{
    lemma_find_byte(d, i, 0x2f);
    if k > 0 && find_byte(d, i, 0x2f) < d.len() {
        lemma_slash_field(d, find_byte(d, i, 0x2f) + 1, (k - 1) as nat);
    }
}

/// The `k`-th field of a face vertex `v/vt/vn` is there and not empty.
pub open spec fn field_present(w: Seq<u8>, k: nat) -> bool {
    match slash_field(w, 0, k) {
        Some((a, b)) => a < b,
        None => false,
    }
}

/// The element that the `k`-th field of a face vertex names, among `count` read so far.
pub open spec fn field_index(w: Seq<u8>, k: nat, count: nat) -> nat {
    match slash_field(w, 0, k) {
        Some((a, b)) => obj_index(w.subrange(a, b), count),
        None => 0,
    }
}

/// Finds the span of the `k`-th `/`-separated field of `d`.
fn slash_field_exec(d: &[u8], k: usize) -> (r: Option<(usize, usize)>)
    ensures
        slash_field(d@, 0, k as nat) == (match r {
            Some((a, b)) => Some((a as int, b as int)),
            None => None::<(int, int)>,
        }),
        r matches Some((a, b)) ==> a <= b <= d.len(),
{
    let mut i: usize = 0;
    let mut left: usize = k;
    loop
        invariant
            i <= d.len(),
            left <= k,
            slash_field(d@, i as int, left as nat) == slash_field(d@, 0, k as nat),
        decreases left,
    {
        let q = find_byte_from(d, i, 0x2f);
        if left == 0 {
            return Some((i, q));
        }
        if q >= d.len() {
            return None;
        }
        i = q + 1;
        left = left - 1;
    }
}

/// The element that field `k` of `w` names, and whether that field is there and not empty.
fn field_exec(w: &[u8], k: usize, count: usize) -> (r: (u64, bool))
    ensures
        r.0 as nat == field_index(w@, k as nat, count as nat),
        r.1 == field_present(w@, k as nat),
{
    match slash_field_exec(w, k) {
        Some((a, b)) => {
            let f = vstd::slice::slice_subrange(w, a, b);
            (obj_index_exec(f, count), a < b)
        },
        None => (0, false),
    }
}

// ------------------------------------------------------------------ words

/// The whitespace-separated words of `d` from `i` on.
pub open spec fn word_texts(d: Seq<u8>, i: int) -> Seq<Seq<u8>> {
    word_spans(d, i).map_values(|s: (int, int)| d.subrange(s.0, s.1))
}

/// The view of a list of byte strings.
pub open spec fn texts_view(v: Seq<Vec<u8>>) -> Seq<Seq<u8>> {
    v.map_values(|w: Vec<u8>| w@)
}

/// Copies out the whitespace-separated words of `d[i..]`.
fn word_texts_exec(d: &[u8], i: usize) -> (r: Vec<Vec<u8>>)
    requires
        i <= d.len(),
    ensures
        texts_view(r@) == word_texts(d@, i as int),
{
    let spans = word_spans_exec(d, i);
    proof {
        lemma_word_spans(d@, i as int);
    }
    let ghost sv = spans_view(spans@);
    let mut out: Vec<Vec<u8>> = Vec::new();
    let mut k: usize = 0;
    while k < spans.len()
        invariant
            k <= spans.len(),
            sv == spans_view(spans@),
            sv == word_spans(d@, i as int),
            forall|j: int|
                0 <= j < sv.len() ==> i <= (#[trigger] sv[j]).0 < sv[j].1 <= d.len(),
            texts_view(out@) == word_texts(d@, i as int).subrange(0, k as int),
        decreases spans.len() - k,
    {
        let (a, b) = spans[k];
        assert(sv[k as int] == (a as int, b as int));
        let w = vstd::slice::slice_to_vec(vstd::slice::slice_subrange(d, a, b));
        let ghost before = out@;
        out.push(w);
        assert(texts_view(out@) =~= texts_view(before).push(w@));
        assert(word_texts(d@, i as int).subrange(0, k + 1) =~= word_texts(d@, i as int).subrange(
            0,
            k as int,
        ).push(d@.subrange(a as int, b as int)));
        k = k + 1;
    }
    assert(word_texts(d@, i as int).subrange(0, k as int) =~= word_texts(d@, i as int));
    out
}

// ------------------------------------------------------------------ faces

/// A triangle of a face: for each corner the position it uses, and the normals and texture
/// coordinates when all three corners name them.
#[derive(Clone, Copy, Debug, PartialEq, Eq)]
pub struct ObjTriangle {
    pub position: (u64, u64, u64),
    pub normal: Option<(u64, u64, u64)>,
    pub uv: Option<(u64, u64, u64)>,
}

/// The triangle with corners `a`, `b`, `c`, given how many positions, normals and texture
/// coordinates were read so far.
pub open spec fn obj_triangle(
    a: Seq<u8>,
    b: Seq<u8>,
    c: Seq<u8>,
    positions: nat,
    normals: nat,
    uvs: nat,
) -> ObjTriangle {
    ObjTriangle {
        position: (
            field_index(a, 0, positions) as u64,
            field_index(b, 0, positions) as u64,
            field_index(c, 0, positions) as u64,
        ),
        normal: if field_present(a, 2) && field_present(b, 2) && field_present(c, 2) {
            Some(
                (
                    field_index(a, 2, normals) as u64,
                    field_index(b, 2, normals) as u64,
                    field_index(c, 2, normals) as u64,
                ),
            )
        } else {
            None
        },
        uv: if field_present(a, 1) && field_present(b, 1) && field_present(c, 1) {
            Some(
                (
                    field_index(a, 1, uvs) as u64,
                    field_index(b, 1, uvs) as u64,
                    field_index(c, 1, uvs) as u64,
                ),
            )
        } else {
            None
        },
    }
}


/// The fan of triangles of a face whose corners are the words `spans` of `line`: the first
/// corner with each following pair.
pub open spec fn face_triangles(
    line: Seq<u8>,
    spans: Seq<(int, int)>,
    positions: nat,
    normals: nat,
    uvs: nat,
) -> Seq<ObjTriangle> {
    Seq::new(
        if spans.len() >= 3 {
            (spans.len() - 2) as nat
        } else {
            0
        },
        |j: int|
            obj_triangle(
                word(line, spans[0]),
                word(line, spans[j + 1]),
                word(line, spans[j + 2]),
                positions,
                normals,
                uvs,
            ),
    )
}

/// The triangle with corners `a`, `b`, `c`.
fn triangle_exec(a: &[u8], b: &[u8], c: &[u8], positions: usize, normals: usize, uvs: usize) -> (r:
    ObjTriangle)
    ensures
        r == obj_triangle(a@, b@, c@, positions as nat, normals as nat, uvs as nat),
{
    let (pa, _) = field_exec(a, 0, positions);
    let (pb, _) = field_exec(b, 0, positions);
    let (pc, _) = field_exec(c, 0, positions);
    let (na, ha) = field_exec(a, 2, normals);
    let (nb, hb) = field_exec(b, 2, normals);
    let (nc, hc) = field_exec(c, 2, normals);
    let (ta, ga) = field_exec(a, 1, uvs);
    let (tb, gb) = field_exec(b, 1, uvs);
    let (tc, gc) = field_exec(c, 1, uvs);
    ObjTriangle {
        position: (pa, pb, pc),
        normal: if ha && hb && hc {
            Some((na, nb, nc))
        } else {
            None
        },
        uv: if ga && gb && gc {
            Some((ta, tb, tc))
        } else {
            None
        },
    }
}


// ------------------------------------------------------------------ the reader's state

/// A `usemtl` group of an object while it is read: its name, the vertex where it starts, the
/// vertex where it ends once closed, its vertex count once closed (`-1` before), and whether
/// it was carried over from the previous object.
pub struct GroupState {
    pub name: Seq<u8>,
    pub start: nat,
    pub end: Option<nat>,
    pub count: int,
    pub inherited: bool,
}

/// An object while it is read: whether an `o` or `g` line declared it, its triangles,
/// whether any of them has texture coordinates, and its groups.
pub struct ObjectState {
    pub declared: bool,
    pub triangles: Seq<ObjTriangle>,
    pub has_uv: bool,
    pub groups: Seq<GroupState>,
}

/// The reader's state: the values of the positions, normals and texture coordinates read
/// so far (the words after `v`, `vn` or `vt` on each line), the objects already finished,
/// and the current one.
pub struct ObjState {
    pub positions: Seq<Seq<Seq<u8>>>,
    pub normals: Seq<Seq<Seq<u8>>>,
    pub uvs: Seq<Seq<Seq<u8>>>,
    pub done: Seq<ObjectState>,
    pub current: ObjectState,
}

/// The vertices of an object so far: three per triangle.
pub open spec fn vertex_count(o: ObjectState) -> nat {
    3 * o.triangles.len()
}

/// Closes the last group at the current vertex count, unless it is closed already.
pub open spec fn close_group(o: ObjectState) -> ObjectState {
    if o.groups.len() > 0 && o.groups.last().end is None {
        let g = o.groups.last();
        let len = vertex_count(o);
        ObjectState {
            groups: o.groups.update(
                o.groups.len() - 1,
                GroupState {
                    name: g.name,
                    start: g.start,
                    end: Some(len),
                    count: len - g.start,
                    inherited: false,
                },
            ),
            ..o
        }
    } else {
        o
    }
}

/// The groups that hold vertices.
pub open spec fn kept_groups(gs: Seq<GroupState>) -> Seq<GroupState> {
    gs.filter(|g: GroupState| g.count > 0)
}

/// The group an object without groups ends with.
pub open spec fn placeholder_group() -> GroupState {
    GroupState { name: Seq::empty(), start: 0, end: Some(0), count: -1, inherited: false }
}

/// Ends an object: closes its last group, drops the empty groups when it has more than
/// one, and gives it the placeholder group when none is left.
pub open spec fn finish_object(o: ObjectState) -> ObjectState {
    let c = close_group(o);
    let kept = if c.groups.len() > 1 {
        kept_groups(c.groups)
    } else {
        c.groups
    };
    ObjectState {
        groups: if kept.len() == 0 {
            seq![placeholder_group()]
        } else {
            kept
        },
        ..c
    }
}

/// An `o` or `g` line: the first one only marks the initial object as declared; any later
/// one finishes the current object and starts a new one that carries the last group's name
/// over, when it has one.
pub open spec fn start_object(st: ObjState) -> ObjState {
    let cur = st.current;
    if !cur.declared {
        ObjState { current: ObjectState { declared: true, ..cur }, ..st }
    } else {
        let carried = if cur.groups.len() > 0 && cur.groups.last().name.len() > 0 {
            seq![
                GroupState {
                    name: cur.groups.last().name,
                    start: 0,
                    end: None,
                    count: -1,
                    inherited: true,
                },
            ]
        } else {
            Seq::empty()
        };
        ObjState {
            done: st.done.push(finish_object(cur)),
            current: ObjectState {
                declared: true,
                triangles: Seq::empty(),
                has_uv: false,
                groups: carried,
            },
            ..st
        }
    }
}

/// A `usemtl` line: closes the last group, drops it when it was carried over or holds no
/// vertex, and opens a group of that name where the last one ended.
pub open spec fn use_material(st: ObjState, name: Seq<u8>) -> ObjState {
    let o = close_group(st.current);
    let start: nat = if o.groups.len() > 0 {
        match o.groups.last().end {
            Some(e) => e,
            None => 0,
        }
    } else {
        0
    };
    let groups = if o.groups.len() > 0 && (o.groups.last().inherited || o.groups.last().count
        <= 0) {
        o.groups.drop_last()
    } else {
        o.groups
    };
    ObjState {
        current: ObjectState {
            groups: groups.push(
                GroupState { name, start, end: None, count: -1, inherited: false },
            ),
            ..o
        },
        ..st
    }
}

/// Some triangle has texture coordinates.
pub open spec fn any_uv(ts: Seq<ObjTriangle>) -> bool {
    exists|j: int| 0 <= j < ts.len() && (#[trigger] ts[j]).uv is Some
}

/// An `f` line whose corners are the words of `line` from `from` on.
pub open spec fn add_face(st: ObjState, line: Seq<u8>, from: int) -> ObjState {
    let tris = face_triangles(
        line,
        word_spans(line, from),
        st.positions.len(),
        st.normals.len(),
        st.uvs.len(),
    );
    ObjState {
        current: ObjectState {
            triangles: st.current.triangles + tris,
            has_uv: st.current.has_uv || any_uv(tris),
            ..st.current
        },
        ..st
    }
}

/// The bytes of `usemtl `.
pub open spec fn usemtl_prefix() -> Seq<u8> {
    seq![0x75u8, 0x73, 0x65, 0x6d, 0x74, 0x6c, 0x20]
}

/// One line: comments and blank lines are skipped; `v`, `vn` and `vt` add a position, a
/// normal or texture coordinates with the words that follow; `f` adds a face; `o` and `g` start objects; `usemtl`
/// opens a group.
pub open spec fn obj_line(line: Seq<u8>, st: ObjState) -> ObjState {
    let s = ws_run(line, 0);
    if s >= line.len() || line[s] == 0x23 {
        st
    } else if line[s] == 0x76 {
        let w = line.subrange(s, word_end(line, s));
        let values = word_texts(line, word_end(line, s));
        if w == seq![0x76u8] {
            ObjState { positions: st.positions.push(values), ..st }
        } else if w == seq![0x76u8, 0x6e] {
            ObjState { normals: st.normals.push(values), ..st }
        } else if w == seq![0x76u8, 0x74] {
            ObjState { uvs: st.uvs.push(values), ..st }
        } else {
            st
        }
    } else if line[s] == 0x66 {
        add_face(st, line, s + 1)
    } else if line[s] == 0x6f || line[s] == 0x67 {
        start_object(st)
    } else if s + 7 <= line.len() && line.subrange(s, s + 7) == usemtl_prefix() {
        use_material(st, trimmed_from(line, s + 7))
    } else {
        st
    }
}

/// The lines of `t` from `pos` on, each ended by `\n` or by the end of the text.
pub open spec fn obj_lines(t: Seq<u8>, pos: int, st: ObjState) -> ObjState
    decreases t.len() + 1 - pos,
{
    if 0 <= pos <= t.len() {
        proof {
            lemma_find_byte(t, pos, 0x0a);
        }
        if find_byte(t, pos, 0x0a) < t.len() {
            obj_lines(
                t,
                find_byte(t, pos, 0x0a) + 1,
                obj_line(t.subrange(pos, find_byte(t, pos, 0x0a)), st),
            )
        } else {
            obj_line(t.subrange(pos, find_byte(t, pos, 0x0a)), st)
        }
    } else {
        st
    }
}

/// The state before the first line: one undeclared, empty object.
pub open spec fn obj_start() -> ObjState {
    ObjState {
        positions: Seq::empty(),
        normals: Seq::empty(),
        uvs: Seq::empty(),
        done: Seq::empty(),
        current: ObjectState {
            declared: false,
            triangles: Seq::empty(),
            has_uv: false,
            groups: Seq::empty(),
        },
    }
}

// ------------------------------------------------------------------ the result

/// A parsed object: its triangles, whether texture coordinates are kept, and its material
/// groups as `(name, first vertex, vertex count)`.
pub struct ObjObject {
    pub triangles: Vec<ObjTriangle>,
    pub has_uv: bool,
    pub groups: Vec<ObjGroup>,
}

/// A material group: its name and the range of vertices it covers.
pub struct ObjGroup {
    pub name: Vec<u8>,
    pub start: usize,
    pub count: usize,
}

/// The mathematical value of a parsed object.
pub struct ObjObjectModel {
    pub triangles: Seq<ObjTriangle>,
    pub has_uv: bool,
    pub groups: Seq<(Seq<u8>, nat, nat)>,
}

impl View for ObjObject {
    type V = ObjObjectModel;

    open spec fn view(&self) -> ObjObjectModel {
        ObjObjectModel {
            triangles: self.triangles@,
            has_uv: self.has_uv,
            groups: obj_groups_view(self.groups@),
        }
    }
}

/// The view of a list of material groups.
pub open spec fn obj_groups_view(v: Seq<ObjGroup>) -> Seq<(Seq<u8>, nat, nat)> {
    v.map_values(|g: ObjGroup| (g.name@, g.start as nat, g.count as nat))
}

/// What an object becomes: its groups with their counts clamped at 0.
pub open spec fn object_model(o: ObjectState) -> ObjObjectModel {
    ObjObjectModel {
        triangles: o.triangles,
        has_uv: o.has_uv,
        groups: o.groups.map_values(
            |g: GroupState|
                (
                    g.name,
                    g.start,
                    if g.count > 0 {
                        g.count as nat
                    } else {
                        0
                    },
                ),
        ),
    }
}

/// The objects that hold a triangle, in order.
pub open spec fn kept_objects(os: Seq<ObjectState>) -> Seq<ObjObjectModel>
    decreases os.len(),
{
    if os.len() == 0 {
        Seq::empty()
    } else if os.last().triangles.len() > 0 {
        kept_objects(os.drop_last()).push(object_model(os.last()))
    } else {
        kept_objects(os.drop_last())
    }
}

/// A parsed OBJ text: its objects and the values of its positions, normals and texture
/// coordinates, which the triangles index.
pub struct ObjFileModel {
    pub objects: Seq<ObjObjectModel>,
    pub positions: Seq<Seq<Seq<u8>>>,
    pub normals: Seq<Seq<Seq<u8>>>,
    pub uvs: Seq<Seq<Seq<u8>>>,
}

/// An OBJ text read: every line read, the last object finished, the objects without
/// triangles left out.
pub open spec fn obj_file(text: Seq<u8>) -> ObjFileModel {
    let st = obj_lines(obj_text(text), 0, obj_start());
    ObjFileModel {
        objects: kept_objects(st.done.push(finish_object(st.current))),
        positions: st.positions,
        normals: st.normals,
        uvs: st.uvs,
    }
}

/// The view of a list of vertex lines, each a list of words.
pub open spec fn lines_view(v: Seq<Vec<Vec<u8>>>) -> Seq<Seq<Seq<u8>>> {
    v.map_values(|l: Vec<Vec<u8>>| texts_view(l@))
}

/// A parsed OBJ text: its objects, and for each `v`, `vn` and `vt` line the words after the
/// keyword, the numbers that the triangles' indices refer to.
pub struct ObjFile {
    pub objects: Vec<ObjObject>,
    pub positions: Vec<Vec<Vec<u8>>>,
    pub normals: Vec<Vec<Vec<u8>>>,
    pub uvs: Vec<Vec<Vec<u8>>>,
}

impl View for ObjFile {
    type V = ObjFileModel;

    open spec fn view(&self) -> ObjFileModel {
        ObjFileModel {
            objects: objects_view(self.objects@),
            positions: lines_view(self.positions@),
            normals: lines_view(self.normals@),
            uvs: lines_view(self.uvs@),
        }
    }
}

/// The view of a list of parsed objects.
pub open spec fn objects_view(v: Seq<ObjObject>) -> Seq<ObjObjectModel> {
    v.map_values(|o: ObjObject| o@)
}


// ------------------------------------------------------------------ reading

/// A group while it is read; `count` is `None` until the group is closed.
struct Group {
    name: Vec<u8>,
    start: usize,
    end: Option<usize>,
    count: Option<usize>,
    inherited: bool,
}

impl View for Group {
    type V = GroupState;

    closed spec fn view(&self) -> GroupState {
        GroupState {
            name: self.name@,
            start: self.start as nat,
            end: match self.end {
                Some(e) => Some(e as nat),
                None => None,
            },
            count: match self.count {
                Some(c) => c as int,
                None => -1,
            },
            inherited: self.inherited,
        }
    }
}

/// An object while it is read.
struct ObjectBuilder {
    declared: bool,
    triangles: Vec<ObjTriangle>,
    has_uv: bool,
    groups: Vec<Group>,
}

/// The view of a list of groups.
spec fn groups_view(v: Seq<Group>) -> Seq<GroupState> {
    v.map_values(|g: Group| g@)
}

impl View for ObjectBuilder {
    type V = ObjectState;

    closed spec fn view(&self) -> ObjectState {
        ObjectState {
            declared: self.declared,
            triangles: self.triangles@,
            has_uv: self.has_uv,
            groups: groups_view(self.groups@),
        }
    }
}

impl ObjectBuilder {
    /// Its vertex count fits in a `usize`, and every group starts and ends within it.
    spec fn wf(&self) -> bool {
        &&& 3 * self.triangles.len() <= usize::MAX
        &&& forall|k: int|
            0 <= k < self.groups.len() ==> {
                &&& (#[trigger] self.groups@[k]).start <= 3 * self.triangles.len()
                &&& (self.groups@[k].end matches Some(e) ==> e <= 3 * self.triangles.len())
            }
    }

    /// Closes the last group, returning whether there is one.
    fn close_group(&mut self)
        requires
            old(self).wf(),
        ensures
            final(self).wf(),
            final(self)@ == close_group(old(self)@),
            final(self).triangles@ == old(self).triangles@,
    {
        let n = self.groups.len();
        if n > 0 && self.groups[n - 1].end.is_none() {
            let len = 3 * self.triangles.len();
            let ghost before = self.groups@;
            let mut g = self.groups.pop().unwrap();
            g.end = Some(len);
            g.count = Some(len - g.start);
            g.inherited = false;
            self.groups.push(g);
            proof {
                assert(self.groups@ =~= before.update(n - 1, g));
                assert(groups_view(self.groups@) =~= groups_view(before).update(n - 1, g@));
                assert forall|k: int| 0 <= k < self.groups.len() implies {
                    &&& (#[trigger] self.groups@[k]).start <= 3 * self.triangles.len()
                    &&& (self.groups@[k].end matches Some(e) ==> e <= 3 * self.triangles.len())
                } by {
                    if k < n - 1 {
                        assert(self.groups@[k] == before[k]);
                    }
                }
            }
        }
    }

    /// Ends the object as `finish_object` does.
    fn finish(&mut self)
        requires
            old(self).wf(),
        ensures
            final(self).wf(),
            final(self)@ == finish_object(old(self)@),
            final(self).triangles@ == old(self).triangles@,
    {
        self.close_group();
        let ghost closed = self@;
        if self.groups.len() > 1 {
            let mut kept: Vec<Group> = Vec::new();
            let mut i: usize = 0;
            while i < self.groups.len()
                invariant
                    self.wf(),
                    self@ == closed,
                    i <= self.groups.len(),
                    groups_view(kept@) == kept_groups(groups_view(self.groups@).subrange(
                        0,
                        i as int,
                    )),
                    forall|k: int|
                        0 <= k < kept.len() ==> {
                            &&& (#[trigger] kept@[k]).start <= 3 * self.triangles.len()
                            &&& (kept@[k].end matches Some(e) ==> e <= 3
                                * self.triangles.len())
                        },
                decreases self.groups.len() - i,
            {
                let ghost gv = groups_view(self.groups@);
                proof {
                    reveal(Seq::filter);
                    assert(gv.subrange(0, i + 1).drop_last() =~= gv.subrange(0, i as int));
                    assert(gv.subrange(0, i + 1).last() == gv[i as int]);
                }
                let g = &self.groups[i];
                let positive = match g.count {
                    Some(c) => c > 0,
                    None => false,
                };
                if positive {
                    let copy = Group {
                        name: g.name.clone(),
                        start: g.start,
                        end: g.end,
                        count: g.count,
                        inherited: g.inherited,
                    };
                    assert(copy.name@ =~= g.name@);
                    let ghost before = kept@;
                    kept.push(copy);
                    assert(groups_view(kept@) =~= groups_view(before).push(copy@));
                }
                i = i + 1;
            }
            assert(groups_view(self.groups@).subrange(0, self.groups.len() as int)
                =~= groups_view(self.groups@));
            self.groups = kept;
        }
        if self.groups.len() == 0 {
            self.groups.push(
                Group { name: Vec::new(), start: 0, end: Some(0), count: None, inherited: false },
            );
            assert(groups_view(self.groups@) =~= seq![placeholder_group()]);
        }
    }

    /// The parsed object this one becomes.
    fn into_object(self) -> (r: ObjObject)
        ensures
            r@ == object_model(self@),
    {
        let mut groups: Vec<ObjGroup> = Vec::new();
        let mut i: usize = 0;
        while i < self.groups.len()
            invariant
                i <= self.groups.len(),
                obj_groups_view(groups@) == object_model(self@).groups.subrange(0, i as int),
            decreases self.groups.len() - i,
        {
            let g = &self.groups[i];
            let count = match g.count {
                Some(c) => c,
                None => 0,
            };
            let out = ObjGroup { name: g.name.clone(), start: g.start, count };
            assert(out.name@ =~= g.name@);
            let ghost before = groups@;
            groups.push(out);
            assert(obj_groups_view(groups@) =~= obj_groups_view(before).push(
                (out.name@, out.start as nat, out.count as nat),
            ));
            assert(object_model(self@).groups.subrange(0, i + 1) =~= object_model(
                self@,
            ).groups.subrange(0, i as int).push(object_model(self@).groups[i as int]));
            i = i + 1;
        }
        assert(object_model(self@).groups.subrange(0, i as int) =~= object_model(self@).groups);
        ObjObject { triangles: self.triangles, has_uv: self.has_uv, groups }
    }
}


/// The reader: the counts read so far, the current object, the finished objects that hold
/// triangles, and every finished object.
struct ObjReader {
    positions: Vec<Vec<Vec<u8>>>,
    normals: Vec<Vec<Vec<u8>>>,
    uvs: Vec<Vec<Vec<u8>>>,
    current: ObjectBuilder,
    objects: Vec<ObjObject>,
    done: Ghost<Seq<ObjectState>>,
}

impl View for ObjReader {
    type V = ObjState;

    closed spec fn view(&self) -> ObjState {
        ObjState {
            positions: lines_view(self.positions@),
            normals: lines_view(self.normals@),
            uvs: lines_view(self.uvs@),
            done: self.done@,
            current: self.current@,
        }
    }
}

impl ObjReader {
    /// The current object is well formed and the kept objects are those finished so far.
    spec fn inv(&self) -> bool {
        &&& self.current.wf()
        &&& objects_view(self.objects@) == kept_objects(self.done@)
    }

    fn new() -> (r: Self)
        ensures
            r.inv(),
            r@ == obj_start(),
            r.current.triangles.len() == 0,
    {
        let r = ObjReader {
            positions: Vec::new(),
            normals: Vec::new(),
            uvs: Vec::new(),
            current: ObjectBuilder {
                declared: false,
                triangles: Vec::new(),
                has_uv: false,
                groups: Vec::new(),
            },
            objects: Vec::new(),
            done: Ghost(Seq::empty()),
        };
        assert(objects_view(r.objects@) =~= Seq::<ObjObjectModel>::empty());
        assert(groups_view(r.current.groups@) =~= Seq::<GroupState>::empty());
        assert(lines_view(r.positions@) =~= Seq::<Seq<Seq<u8>>>::empty());
        assert(lines_view(r.normals@) =~= Seq::<Seq<Seq<u8>>>::empty());
        assert(lines_view(r.uvs@) =~= Seq::<Seq<Seq<u8>>>::empty());
        assert(r@ =~= obj_start());
        r
    }

    /// Adds the fan of a face whose corners are the words of `line` from `from` on.
    fn add_face(&mut self, line: &[u8], from: usize)
        requires
            old(self).inv(),
            from <= line.len(),
            3 * (old(self).current.triangles.len() + line.len()) <= usize::MAX,
        ensures
            final(self).inv(),
            final(self)@ == add_face(old(self)@, line@, from as int),
            final(self).current.triangles.len() <= old(self).current.triangles.len()
                + line.len(),
    {
        let spans = word_spans_exec(line, from);
        proof {
            lemma_word_spans(line@, from as int);
        }
        let n = spans.len();
        let ghost sv = spans_view(spans@);
        let ghost tris = face_triangles(
            line@,
            sv,
            self.positions.len() as nat,
            self.normals.len() as nat,
            self.uvs.len() as nat,
        );
        let ghost old_tris = self.current.triangles@;
        let ghost old_uv = self.current.has_uv;
        assert(sv.len() == n);
        assert forall|k: int| 0 <= k < n implies (#[trigger] spans@[k]).0 < spans@[k].1 <= line.len() by {
            assert(sv[k] == (spans@[k].0 as int, spans@[k].1 as int));
        }
        if n >= 3 {
            let first = vstd::slice::slice_subrange(line, spans[0].0, spans[0].1);
            let mut j: usize = 0;
            while j < n - 2
                invariant
                    n == spans.len(),
                    n >= 3,
                    n <= line.len(),
                    j <= n - 2,
                    sv == spans_view(spans@),
                    forall|k: int| 0 <= k < n ==> (#[trigger] spans@[k]).0 < spans@[k].1 <= line.len(),
                    first@ == word(line@, sv[0]),
                    tris == face_triangles(
                        line@,
                        sv,
                        self.positions.len() as nat,
                        self.normals.len() as nat,
                        self.uvs.len() as nat,
                    ),
                    self.current.triangles@ == old_tris + tris.take(j as int),
                    self.current.has_uv == (old_uv || any_uv(tris.take(j as int))),
                    self.current.declared == old(self).current.declared,
                    self.current.groups@ == old(self).current.groups@,
                    self.positions@ == old(self).positions@,
                    self.normals@ == old(self).normals@,
                    self.uvs@ == old(self).uvs@,
                    self.objects@ == old(self).objects@,
                    self.done@ == old(self).done@,
                    old_tris == old(self).current.triangles@,
                    old_uv == old(self).current.has_uv,
                decreases n - 2 - j,
            {
                let (b0, b1) = spans[j + 1];
                let (c0, c1) = spans[j + 2];
                let b = vstd::slice::slice_subrange(line, b0, b1);
                let c = vstd::slice::slice_subrange(line, c0, c1);
                let t = triangle_exec(
                    first,
                    b,
                    c,
                    self.positions.len(),
                    self.normals.len(),
                    self.uvs.len(),
                );
                assert(t == tris[j as int]);
                self.current.triangles.push(t);
                if t.uv.is_some() {
                    self.current.has_uv = true;
                }
                proof {
                    let before = tris.take(j as int);
                    let after = tris.take(j + 1);
                    assert(after =~= before.push(t));
                    assert(self.current.triangles@ =~= old_tris + after);
                    if any_uv(before) {
                        let k = choose|k: int| 0 <= k < before.len() && (#[trigger] before[k]).uv is Some;
                        assert(after[k] == before[k]);
                    }
                    if t.uv is Some {
                        assert(after[j as int] == t);
                    }
                    if any_uv(after) {
                        let k = choose|k: int| 0 <= k < after.len() && (#[trigger] after[k]).uv is Some;
                        if k < j {
                            assert(before[k] == after[k]);
                        }
                    }
                }
                j = j + 1;
            }
            assert(tris.take(n - 2) =~= tris);
        } else {
            assert(tris =~= Seq::<ObjTriangle>::empty());
            assert(self.current.triangles@ =~= old_tris + tris);
        }
        proof {
            assert forall|k: int| 0 <= k < self.current.groups.len() implies {
                &&& (#[trigger] self.current.groups@[k]).start <= 3
                    * self.current.triangles.len()
                &&& (self.current.groups@[k].end matches Some(e) ==> e <= 3
                    * self.current.triangles.len())
            } by {
                assert(old(self).current.groups@[k] == self.current.groups@[k]);
            }
            assert(self@ =~= add_face(old(self)@, line@, from as int));
        }
    }

    /// An `o` or `g` line.
    fn start_object(&mut self)
        requires
            old(self).inv(),
        ensures
            final(self).inv(),
            final(self)@ == start_object(old(self)@),
            final(self).current.triangles.len() <= old(self).current.triangles.len(),
    {
        if !self.current.declared {
            self.current.declared = true;
            assert(self@ =~= start_object(old(self)@));
            return;
        }
        let n = self.current.groups.len();
        let mut fresh = ObjectBuilder {
            declared: true,
            triangles: Vec::new(),
            has_uv: false,
            groups: Vec::new(),
        };
        let ghost cur = self.current@;
        if n > 0 && self.current.groups[n - 1].name.len() > 0 {
            let name = self.current.groups[n - 1].name.clone();
            fresh.groups.push(
                Group { name, start: 0, end: None, count: None, inherited: true },
            );
            assert(groups_view(fresh.groups@) =~= seq![
                GroupState {
                    name: cur.groups.last().name,
                    start: 0,
                    end: None,
                    count: -1,
                    inherited: true,
                },
            ]);
        } else {
            assert(groups_view(fresh.groups@) =~= Seq::<GroupState>::empty());
        }
        self.current.finish();
        std::mem::swap(&mut self.current, &mut fresh);
        let ghost finished = fresh@;
        let ghost before = self.done@;
        self.done = Ghost(self.done@.push(finished));
        if fresh.triangles.len() > 0 {
            let ghost kept = self.objects@;
            let o = fresh.into_object();
            self.objects.push(o);
            assert(objects_view(self.objects@) =~= objects_view(kept).push(o@));
        }
        assert(self.done@.drop_last() =~= before);
        assert(self@ =~= start_object(old(self)@));
    }

    /// A `usemtl` line naming `name`.
    fn use_material(&mut self, name: Vec<u8>)
        requires
            old(self).inv(),
        ensures
            final(self).inv(),
            final(self)@ == use_material(old(self)@, name@),
            final(self).current.triangles.len() == old(self).current.triangles.len(),
    {
        self.current.close_group();
        let ghost closed = self.current@;
        let n = self.current.groups.len();
        let mut start: usize = 0;
        if n > 0 {
            let g = &self.current.groups[n - 1];
            start = match g.end {
                Some(e) => e,
                None => 0,
            };
            let drop = g.inherited || match g.count {
                Some(c) => c == 0,
                None => true,
            };
            if drop {
                let ghost gs = self.current.groups@;
                self.current.groups.pop();
                assert(groups_view(self.current.groups@) =~= groups_view(gs).drop_last());
            }
        }
        let ghost gs = self.current.groups@;
        let g = Group { name, start, end: None, count: None, inherited: false };
        self.current.groups.push(g);
        assert(groups_view(self.current.groups@) =~= groups_view(gs).push(g@));
        proof {
            assert forall|k: int| 0 <= k < self.current.groups.len() implies {
                &&& (#[trigger] self.current.groups@[k]).start <= 3
                    * self.current.triangles.len()
                &&& (self.current.groups@[k].end matches Some(e) ==> e <= 3
                    * self.current.triangles.len())
            } by {
                if k < self.current.groups.len() - 1 {
                    assert(self.current.groups@[k] == gs[k]);
                }
            }
        }
        assert(self@ =~= use_material(old(self)@, name@));
    }

    /// Reads one line.
    fn line(&mut self, line: &[u8])
        requires
            old(self).inv(),
            3 * (old(self).current.triangles.len() + line.len()) <= usize::MAX,
        ensures
            final(self).inv(),
            final(self)@ == obj_line(line@, old(self)@),
            final(self).current.triangles.len() <= old(self).current.triangles.len()
                + line.len(),
    {
        let s = skip_ws(line, 0);
        if s >= line.len() || line[s] == 0x23 {
            return;
        }
        let b = line[s];
        if b == 0x76 {
            proof {
                lemma_word_end(line@, s as int);
            }
            let e = word_end_from(line, s);
            let ghost w = line@.subrange(s as int, e as int);
            if e - s == 1 {
                assert(w =~= seq![0x76u8]);
                let values = word_texts_exec(line, e);
                let ghost before = self.positions@;
                self.positions.push(values);
                assert(lines_view(self.positions@) =~= lines_view(before).push(texts_view(values@)));
            } else if e - s == 2 && line[s + 1] == 0x6e {
                assert(w =~= seq![0x76u8, 0x6e]);
                let values = word_texts_exec(line, e);
                let ghost before = self.normals@;
                self.normals.push(values);
                assert(lines_view(self.normals@) =~= lines_view(before).push(texts_view(values@)));
            } else if e - s == 2 && line[s + 1] == 0x74 {
                assert(w =~= seq![0x76u8, 0x74]);
                let values = word_texts_exec(line, e);
                let ghost before = self.uvs@;
                self.uvs.push(values);
                assert(lines_view(self.uvs@) =~= lines_view(before).push(texts_view(values@)));
            } else {
                assert(w.len() == e - s);
                assert(w != seq![0x76u8]) by {
                    if w == seq![0x76u8] {
                        assert(w.len() == 1);
                    }
                }
                assert(w != seq![0x76u8, 0x6e]) by {
                    if w == seq![0x76u8, 0x6e] {
                        assert(w.len() == 2 && w[1] == line@[s + 1]);
                    }
                }
                assert(w != seq![0x76u8, 0x74]) by {
                    if w == seq![0x76u8, 0x74] {
                        assert(w.len() == 2 && w[1] == line@[s + 1]);
                    }
                }
            }
            assert(self@ =~= obj_line(line@, old(self)@));
        } else if b == 0x66 {
            self.add_face(line, s + 1);
        } else if b == 0x6f || b == 0x67 {
            self.start_object();
        } else if line.len() - s >= 7 && b == 0x75 && line[s + 1] == 0x73 && line[s + 2] == 0x65
            && line[s + 3] == 0x6d && line[s + 4] == 0x74 && line[s + 5] == 0x6c && line[s + 6]
            == 0x20 {
            assert(line@.subrange(s as int, s + 7) =~= usemtl_prefix());
            let (a, z) = trim_span(line, s + 7);
            let name = vstd::slice::slice_to_vec(vstd::slice::slice_subrange(line, a, z));
            self.use_material(name);
        } else {
            assert(line.len() - s >= 7 ==> line@.subrange(s as int, s + 7) != usemtl_prefix())
                by {
                if line.len() - s >= 7 {
                    let w = line@.subrange(s as int, s + 7);
                    assert(w[0] == line@[s as int] && w[1] == line@[s + 1] && w[2] == line@[s
                        + 2] && w[3] == line@[s + 3] && w[4] == line@[s + 4] && w[5] == line@[s
                        + 5] && w[6] == line@[s + 6]);
                }
            }
        }
    }

    /// Finishes the last object and hands out the objects that hold triangles.
    fn finish(self) -> (r: ObjFile)
        requires
            self.inv(),
        ensures
            r@ == (ObjFileModel {
                objects: kept_objects(self@.done.push(finish_object(self@.current))),
                positions: self@.positions,
                normals: self@.normals,
                uvs: self@.uvs,
            }),
    {
        let ghost st = self@;
        let ObjReader { current, objects, done, positions, normals, uvs } = self;
        let mut current = current;
        let mut objects = objects;
        current.finish();
        let ghost all = done@.push(current@);
        assert(all.drop_last() =~= done@);
        if current.triangles.len() > 0 {
            let ghost kept = objects@;
            let o = current.into_object();
            objects.push(o);
            assert(objects_view(objects@) =~= objects_view(kept).push(o@));
        }
        ObjFile { objects, positions, normals, uvs }
    }
}

/// Reads an OBJ text: the words of each `v`, `vn` and `vt` line are kept, each face is
/// fanned into triangles of the indices its corners name, `o` and `g` lines start objects,
/// and `usemtl` lines open material groups over each object's vertices.
pub fn parse_obj(text: &[u8]) -> (r: ObjFile)
    requires
        text.len() <= usize::MAX / 3,
    ensures
        r@ == obj_file(text@),
{
    let t1 = replace_pair_exec(text, 0x0d, 0x0a, true);
    let t = replace_pair_exec(t1.as_slice(), 0x5c, 0x0a, false);
    let mut reader = ObjReader::new();
    let mut pos: usize = 0;
    let ghost total = obj_lines(t@, 0, obj_start());
    loop
        invariant_except_break
            pos <= t.len(),
            total == obj_lines(t@, pos as int, reader@),
            reader.current.triangles.len() <= pos,
        invariant
            reader.inv(),
            t.len() <= usize::MAX / 3,
            total == obj_lines(obj_text(text@), 0, obj_start()),
        ensures
            total == reader@,
        decreases t.len() - pos,
    {
        let e = find_byte_from(t.as_slice(), pos, 0x0a);
        proof {
            lemma_find_byte(t@, pos as int, 0x0a);
        }
        let line = vstd::slice::slice_subrange(t.as_slice(), pos, e);
        reader.line(line);
        if e >= t.len() {
            break;
        }
        pos = e + 1;
    }
    reader.finish()
}


// ------------------------------------------------------------------ group ranges

/// Every group of an object starts and ends within the object's vertices, and a group that
/// holds vertices holds only the object's.
pub open spec fn groups_within(o: ObjectState) -> bool {
    forall|k: int|
        0 <= k < o.groups.len() ==> {
            &&& (#[trigger] o.groups[k]).start <= vertex_count(o)
            &&& (o.groups[k].end matches Some(e) ==> e <= vertex_count(o))
            &&& (o.groups[k].count > 0 ==> o.groups[k].start + o.groups[k].count
                <= vertex_count(o))
        }
}

/// The current object and every finished one keep their groups within their vertices.
pub open spec fn state_within(st: ObjState) -> bool {
    &&& groups_within(st.current)
    &&& forall|k: int| 0 <= k < st.done.len() ==> groups_within(#[trigger] st.done[k])
}

proof fn lemma_close_within(o: ObjectState)
    requires
        groups_within(o),
    ensures
        groups_within(close_group(o)),
        close_group(o).triangles == o.triangles,
{
    let c = close_group(o);
    assert forall|k: int| 0 <= k < c.groups.len() implies {
        &&& (#[trigger] c.groups[k]).start <= vertex_count(c)
        &&& (c.groups[k].end matches Some(e) ==> e <= vertex_count(c))
        &&& (c.groups[k].count > 0 ==> c.groups[k].start + c.groups[k].count <= vertex_count(c))
    } by {
        assert(o.groups[k].start == c.groups[k].start);
    }
}

/// The groups kept are groups of the list.
proof fn lemma_kept_groups(gs: Seq<GroupState>)
    ensures
        forall|k: int|
            0 <= k < kept_groups(gs).len() ==> gs.contains(#[trigger] kept_groups(gs)[k]),
    decreases gs.len(),
{
    reveal(Seq::filter);
    if gs.len() > 0 {
        let d = gs.drop_last();
        lemma_kept_groups(d);
        assert forall|k: int|
            0 <= k < kept_groups(gs).len() implies gs.contains(
            #[trigger] kept_groups(gs)[k],
        ) by {
            if k < kept_groups(d).len() {
                assert(kept_groups(gs)[k] == kept_groups(d)[k]);
                let j = choose|j: int| 0 <= j < d.len() && d[j] == kept_groups(d)[k];
                assert(gs[j] == d[j]);
            } else {
                assert(kept_groups(gs)[k] == gs.last());
                assert(gs[gs.len() - 1] == gs.last());
            }
        }
    }
}

proof fn lemma_finish_within(o: ObjectState)
    requires
        groups_within(o),
    ensures
        groups_within(finish_object(o)),
        finish_object(o).triangles == o.triangles,
{
    lemma_close_within(o);
    let c = close_group(o);
    let f = finish_object(o);
    lemma_kept_groups(c.groups);
    assert forall|k: int| 0 <= k < f.groups.len() implies {
        &&& (#[trigger] f.groups[k]).start <= vertex_count(f)
        &&& (f.groups[k].end matches Some(e) ==> e <= vertex_count(f))
        &&& (f.groups[k].count > 0 ==> f.groups[k].start + f.groups[k].count <= vertex_count(f))
    } by {
        if c.groups.len() > 1 && kept_groups(c.groups).len() > 0 {
            assert(c.groups.contains(kept_groups(c.groups)[k]));
            let j = choose|j: int| 0 <= j < c.groups.len() && c.groups[j] == kept_groups(c.groups)[k];
            assert(c.groups[j] == f.groups[k]);
        }
    }
}

proof fn lemma_line_within(line: Seq<u8>, st: ObjState)
    requires
        state_within(st),
    ensures
        state_within(obj_line(line, st)),
{
    let n = obj_line(line, st);
    let s = ws_run(line, 0);
    if s >= line.len() || line[s] == 0x23 || line[s] == 0x76 {
        assert(n.current == st.current && n.done == st.done);
    } else if line[s] == 0x66 {
        let o = n.current;
        assert(o.groups == st.current.groups);
        assert(vertex_count(o) >= vertex_count(st.current));
        assert forall|k: int| 0 <= k < o.groups.len() implies {
            &&& (#[trigger] o.groups[k]).start <= vertex_count(o)
            &&& (o.groups[k].end matches Some(e) ==> e <= vertex_count(o))
            &&& (o.groups[k].count > 0 ==> o.groups[k].start + o.groups[k].count
                <= vertex_count(o))
        } by {
            assert(o.groups[k] == st.current.groups[k]);
        }
    } else if line[s] == 0x6f || line[s] == 0x67 {
        if st.current.declared {
            lemma_finish_within(st.current);
            assert forall|k: int| 0 <= k < n.done.len() implies groups_within(
                #[trigger] n.done[k],
            ) by {
                if k < st.done.len() {
                    assert(n.done[k] == st.done[k]);
                }
            }
        }
    } else if s + 7 <= line.len() && line.subrange(s, s + 7) == usemtl_prefix() {
        lemma_close_within(st.current);
        let c = close_group(st.current);
        let o = n.current;
        assert forall|k: int| 0 <= k < o.groups.len() implies {
            &&& (#[trigger] o.groups[k]).start <= vertex_count(o)
            &&& (o.groups[k].end matches Some(e) ==> e <= vertex_count(o))
            &&& (o.groups[k].count > 0 ==> o.groups[k].start + o.groups[k].count
                <= vertex_count(o))
        } by {
            if k < o.groups.len() - 1 {
                assert(o.groups[k] == c.groups[k]);
            } else if c.groups.len() > 0 {
                assert(c.groups[c.groups.len() - 1] == c.groups.last());
            }
        }
    }
}

proof fn lemma_lines_within(t: Seq<u8>, pos: int, st: ObjState)
    requires
        state_within(st),
    ensures
        state_within(obj_lines(t, pos, st)),
    decreases t.len() + 1 - pos,
{
    if 0 <= pos <= t.len() {
        lemma_find_byte(t, pos, 0x0a);
        let e = find_byte(t, pos, 0x0a);
        lemma_line_within(t.subrange(pos, e), st);
        if e < t.len() {
            lemma_lines_within(t, e + 1, obj_line(t.subrange(pos, e), st));
        }
    }
}

proof fn lemma_kept_objects_within(os: Seq<ObjectState>)
    requires
        forall|k: int| 0 <= k < os.len() ==> groups_within(#[trigger] os[k]),
    ensures
        forall|k: int, j: int|
            0 <= k < kept_objects(os).len() && 0 <= j < kept_objects(os)[k].groups.len()
                ==> #[trigger] kept_objects(os)[k].groups[j].1 + kept_objects(
                os,
            )[k].groups[j].2 <= 3 * kept_objects(os)[k].triangles.len(),
    decreases os.len(),
{
    if os.len() > 0 {
        let d = os.drop_last();
        assert forall|k: int| 0 <= k < d.len() implies groups_within(#[trigger] d[k]) by {
            assert(d[k] == os[k]);
        }
        lemma_kept_objects_within(d);
        let last = os.last();
        assert(groups_within(os[os.len() - 1]));
        assert forall|k: int, j: int|
            0 <= k < kept_objects(os).len() && 0 <= j < kept_objects(os)[k].groups.len()
                implies #[trigger] kept_objects(os)[k].groups[j].1 + kept_objects(
            os,
        )[k].groups[j].2 <= 3 * kept_objects(os)[k].triangles.len() by {
            if k < kept_objects(d).len() {
                assert(kept_objects(os)[k] == kept_objects(d)[k]);
            } else {
                let m = object_model(last);
                assert(kept_objects(os)[k] == m);
                assert(m.groups[j].1 == last.groups[j].start);
                assert(last.groups[j] == last.groups[j]);
            }
        }
    }
}

/// Every material group of every object read from an OBJ text covers vertices of that
/// object only: its first vertex plus its count never passes the object's vertex count.
pub proof fn lemma_obj_groups_within(text: Seq<u8>)
    ensures
        forall|k: int, j: int|
            0 <= k < obj_file(text).objects.len() && 0 <= j < obj_file(text).objects[k].groups.len()
                ==> #[trigger] obj_file(text).objects[k].groups[j].1 + obj_file(text).objects[k].groups[j].2
                <= 3 * obj_file(text).objects[k].triangles.len(),
{
    let st0 = obj_start();
    assert(state_within(st0));
    let t = obj_text(text);
    lemma_lines_within(t, 0, st0);
    let st = obj_lines(t, 0, st0);
    lemma_finish_within(st.current);
    let all = st.done.push(finish_object(st.current));
    assert forall|k: int| 0 <= k < all.len() implies groups_within(#[trigger] all[k]) by {
        if k < st.done.len() {
            assert(all[k] == st.done[k]);
        }
    }
    lemma_kept_objects_within(all);
}


// ------------------------------------------------------------------ pruned groups

/// An object holds at least one group, and when it holds more, each holds vertices.
pub open spec fn groups_pruned(o: ObjectState) -> bool {
    &&& o.groups.len() >= 1
    &&& o.groups.len() > 1 ==> forall|k: int| 0 <= k < o.groups.len() ==> (#[trigger] o.groups[k]).count > 0
}

/// Every group the filter keeps holds vertices.
proof fn lemma_kept_groups_positive(gs: Seq<GroupState>)
    ensures
        forall|k: int| 0 <= k < kept_groups(gs).len() ==> (#[trigger] kept_groups(gs)[k]).count > 0,
    decreases gs.len(),
{
    reveal(Seq::filter);
    if gs.len() > 0 {
        lemma_kept_groups_positive(gs.drop_last());
    }
}

proof fn lemma_finish_pruned(o: ObjectState)
    ensures
        groups_pruned(finish_object(o)),
{
    lemma_kept_groups_positive(close_group(o).groups);
}

/// A line finishes at most the current object.
proof fn lemma_line_done(line: Seq<u8>, st: ObjState)
    ensures
        obj_line(line, st).done == st.done || obj_line(line, st).done == st.done.push(
            finish_object(st.current),
        ),
{
    let s = ws_run(line, 0);
    if s >= line.len() || line[s] == 0x23 {
    } else if line[s] == 0x76 {
    } else if line[s] == 0x66 {
    } else if line[s] == 0x6f || line[s] == 0x67 {
    } else if s + 7 <= line.len() && line.subrange(s, s + 7) == usemtl_prefix() {
    } else {
    }
}

proof fn lemma_lines_pruned(t: Seq<u8>, pos: int, st: ObjState)
    requires
        forall|k: int| 0 <= k < st.done.len() ==> groups_pruned(#[trigger] st.done[k]),
    ensures
        ({
            let r = obj_lines(t, pos, st);
            forall|k: int| 0 <= k < r.done.len() ==> groups_pruned(#[trigger] r.done[k])
        }),
    decreases t.len() + 1 - pos,
{
    if 0 <= pos <= t.len() {
        lemma_find_byte(t, pos, 0x0a);
        let e = find_byte(t, pos, 0x0a);
        let line = t.subrange(pos, e);
        let n = obj_line(line, st);
        lemma_finish_pruned(st.current);
        lemma_line_done(line, st);
        assert forall|k: int| 0 <= k < n.done.len() implies groups_pruned(#[trigger] n.done[k]) by {
            if k < st.done.len() {
                assert(n.done[k] == st.done[k]);
            }
        }
        if e < t.len() {
            assert(obj_lines(t, pos, st) == obj_lines(t, e + 1, n));
            lemma_lines_pruned(t, e + 1, n);
        } else {
            assert(obj_lines(t, pos, st) == n);
        }
    }
}

proof fn lemma_kept_objects_pruned(os: Seq<ObjectState>)
    requires
        forall|k: int| 0 <= k < os.len() ==> groups_pruned(#[trigger] os[k]),
    ensures
        forall|k: int|
            0 <= k < kept_objects(os).len() ==> {
                let g = (#[trigger] kept_objects(os)[k]).groups;
                &&& g.len() >= 1
                &&& g.len() > 1 ==> forall|j: int| 0 <= j < g.len() ==> (#[trigger] g[j]).2 > 0
            },
    decreases os.len(),
{
    if os.len() > 0 {
        let d = os.drop_last();
        assert forall|k: int| 0 <= k < d.len() implies groups_pruned(#[trigger] d[k]) by {
            assert(d[k] == os[k]);
        }
        lemma_kept_objects_pruned(d);
        let last = os.last();
        assert(groups_pruned(os[os.len() - 1]));
        assert forall|k: int| 0 <= k < kept_objects(os).len() implies {
            let g = (#[trigger] kept_objects(os)[k]).groups;
            &&& g.len() >= 1
            &&& g.len() > 1 ==> forall|j: int| 0 <= j < g.len() ==> (#[trigger] g[j]).2 > 0
        } by {
            if k < kept_objects(d).len() {
                assert(kept_objects(os)[k] == kept_objects(d)[k]);
            } else {
                let g = object_model(last).groups;
                assert(kept_objects(os)[k] == object_model(last));
                assert forall|j: int| 0 <= j < g.len() && g.len() > 1 implies (#[trigger] g[j]).2 > 0 by {
                    assert(last.groups[j].count > 0);
                }
            }
        }
    }
}

/// Every object read from an OBJ text has at least one material group, and when it has
/// more than one, every group covers at least one vertex: empty groups are pruned.
pub proof fn lemma_obj_groups_pruned(text: Seq<u8>)
    ensures
        forall|k: int|
            0 <= k < obj_file(text).objects.len() ==> {
                let g = (#[trigger] obj_file(text).objects[k]).groups;
                &&& g.len() >= 1
                &&& g.len() > 1 ==> forall|j: int| 0 <= j < g.len() ==> (#[trigger] g[j]).2 > 0
            },
{
    let t = obj_text(text);
    lemma_lines_pruned(t, 0, obj_start());
    let st = obj_lines(t, 0, obj_start());
    lemma_finish_pruned(st.current);
    let all = st.done.push(finish_object(st.current));
    assert forall|k: int| 0 <= k < all.len() implies groups_pruned(#[trigger] all[k]) by {
        if k < st.done.len() {
            assert(all[k] == st.done[k]);
        }
    }
    lemma_kept_objects_pruned(all);
}

} // verus!
