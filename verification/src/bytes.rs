//! Little-endian words and whitespace-trimmed decimal bytes, the primitives of the
//! binary and text loaders.
use vstd::prelude::*;

verus! {

/// `n` bytes starting at `i` lie inside `d`.
pub open spec fn in_bounds(d: Seq<u8>, i: int, n: int) -> bool {
    0 <= i && 0 <= n && i + n <= d.len()
}

/// The little-endian 32-bit word whose first byte is `d[i]`.
pub open spec fn le_u32(d: Seq<u8>, i: int) -> u32 {
    (d[i] as int + d[i + 1] as int * 0x100 + d[i + 2] as int * 0x1_0000 + d[i + 3] as int
        * 0x100_0000) as u32
}

/// Reads the little-endian word at `i`, or `None` when it does not fit in `d`.
pub fn read_u32_le(d: &[u8], i: usize) -> (r: Option<u32>)
    ensures
        r == (if in_bounds(d@, i as int, 4) {
            Some(le_u32(d@, i as int))
        } else {
            None::<u32>
        }),
{
    if i > d.len() || d.len() - i < 4 {
        return None;
    }
    let b0 = d[i] as u32;
    let b1 = d[i + 1] as u32;
    let b2 = d[i + 2] as u32;
    let b3 = d[i + 3] as u32;
    Some(b0 + b1 * 0x100 + b2 * 0x1_0000 + b3 * 0x100_0000)
}

/// The length of the UTF-8 encoding of a Unicode `White_Space` character that starts at
/// `d[i]`, or 0 when none starts there.
pub open spec fn ws_len(d: Seq<u8>, i: int) -> int {
    if !(0 <= i < d.len()) {
        0
    } else if d[i] == 0x20 || (0x09 <= d[i] <= 0x0d) {
        1
    } else if i + 1 < d.len() && d[i] == 0xc2 && (d[i + 1] == 0x85 || d[i + 1] == 0xa0) {
        2
    } else if i + 2 < d.len() && ((d[i] == 0xe1 && d[i + 1] == 0x9a && d[i + 2] == 0x80) || (
    d[i] == 0xe2 && d[i + 1] == 0x80 && ((0x80 <= d[i + 2] <= 0x8a) || d[i + 2] == 0xa8
        || d[i + 2] == 0xa9 || d[i + 2] == 0xaf)) || (d[i] == 0xe2 && d[i + 1] == 0x81 && d[i
        + 2] == 0x9f) || (d[i] == 0xe3 && d[i + 1] == 0x80 && d[i + 2] == 0x80)) {
        3
    } else {
        0
    }
}

/// The end of the longest run of whitespace characters that starts at `i`.
pub open spec fn ws_run(d: Seq<u8>, i: int) -> int
    decreases d.len() - i,
{
    if 0 <= i < d.len() && ws_len(d, i) > 0 {
        ws_run(d, i + ws_len(d, i))
    } else {
        i
    }
}

/// `d[i]` is an ASCII decimal digit.
pub open spec fn is_digit_at(d: Seq<u8>, i: int) -> bool {
    0 <= i < d.len() && 0x30 <= d[i] <= 0x39
}

/// The end of the longest run of ASCII digits that starts at `i`.
pub open spec fn digit_run(d: Seq<u8>, i: int) -> int
    decreases d.len() - i,
{
    if is_digit_at(d, i) {
        digit_run(d, i + 1)
    } else {
        i
    }
}

/// The decimal value of the digits `d[i..j]`.
pub open spec fn digits_value(d: Seq<u8>, i: int, j: int) -> nat
    decreases j - i,
{
    if j <= i {
        0
    } else {
        (digits_value(d, i, j - 1) * 10 + (d[j - 1] - 0x30)) as nat
    }
}

/// Where the digits of a trimmed unsigned number begin: after leading whitespace and an
/// optional `+`.
pub open spec fn number_start(d: Seq<u8>) -> int {
    let s = ws_run(d, 0);
    if s < d.len() && d[s] == 0x2b {
        s + 1
    } else {
        s
    }
}

/// `str::trim` then `u8::from_str` on the text of `d`: surrounding Unicode whitespace, an
/// optional `+`, at least one ASCII digit, and a value below 256.
pub open spec fn trimmed_u8(d: Seq<u8>) -> Option<u8> {
    let p = number_start(d);
    let e = digit_run(d, p);
    if e > p && ws_run(d, e) == d.len() && digits_value(d, p, e) <= 255 {
        Some(digits_value(d, p, e) as u8)
    } else {
        None
    }
}

/// Length of the whitespace character at `i`, executable.
pub fn ws_len_at(d: &[u8], i: usize) -> (n: usize)
    requires
        i <= d.len(),
    ensures
        n == ws_len(d@, i as int),
{
    let len = d.len();
    if i >= len {
        return 0;
    }
    let b = d[i];
    if b == 0x20 || (0x09 <= b && b <= 0x0d) {
        return 1;
    }
    if len - i >= 2 && b == 0xc2 && (d[i + 1] == 0x85 || d[i + 1] == 0xa0) {
        return 2;
    }
    if len - i >= 3 {
        let b1 = d[i + 1];
        let b2 = d[i + 2];
        if (b == 0xe1 && b1 == 0x9a && b2 == 0x80) || (b == 0xe2 && b1 == 0x80 && ((0x80 <= b2
            && b2 <= 0x8a) || b2 == 0xa8 || b2 == 0xa9 || b2 == 0xaf)) || (b == 0xe2 && b1 == 0x81
            && b2 == 0x9f) || (b == 0xe3 && b1 == 0x80 && b2 == 0x80) {
            return 3;
        }
    }
    0
}

/// Skips whitespace characters from `i`.
pub fn skip_ws(d: &[u8], i: usize) -> (e: usize)
    requires
        i <= d.len(),
    ensures
        e == ws_run(d@, i as int),
        i <= e <= d.len(),
{
    let mut p = i;
    while p < d.len() && ws_len_at(d, p) > 0
        invariant
            i <= p <= d.len(),
            ws_run(d@, p as int) == ws_run(d@, i as int),
        decreases d.len() - p,
    {
        p = p + ws_len_at(d, p);
    }
    p
}

/// `str::trim` followed by `u8::from_str` on the bytes of a UTF-8 string.
pub fn parse_trimmed_u8(d: &[u8]) -> (r: Option<u8>)
    ensures
        r == trimmed_u8(d@),
{
    let s = skip_ws(d, 0);
    let p = if s < d.len() && d[s] == 0x2b {
        s + 1
    } else {
        s
    };
    assert(p == number_start(d@));
    let mut e = p;
    let mut value: u32 = 0;
    let mut overflow = false;
    while e < d.len() && 0x30 <= d[e] && d[e] <= 0x39
        invariant
            p <= e <= d.len(),
            digit_run(d@, e as int) == digit_run(d@, p as int),
            overflow ==> digits_value(d@, p as int, e as int) > 255,
            !overflow ==> value == digits_value(d@, p as int, e as int) && value <= 255,
        decreases d.len() - e,
    {
        let digit = (d[e] - 0x30) as u32;
        if overflow || value * 10 + digit > 255 {
            overflow = true;
        } else {
            value = value * 10 + digit;
        }
        e = e + 1;
    }
    assert(e == digit_run(d@, p as int));
    if e > p && !overflow && skip_ws(d, e) == d.len() {
        Some(value as u8)
    } else {
        None
    }
}


/// A whitespace run ends inside `d` only before a character that is not whitespace.
pub proof fn lemma_ws_run_stops(d: Seq<u8>, i: int)
    requires
        0 <= i <= d.len(),
    ensures
        i <= ws_run(d, i) <= d.len(),
        ws_run(d, i) < d.len() ==> ws_len(d, ws_run(d, i)) == 0,
    decreases d.len() - i,
{
    if 0 <= i < d.len() && ws_len(d, i) > 0 {
        lemma_ws_run_stops(d, i + ws_len(d, i));
    }
}


/// The first position at or after `i` that holds `b`, or the end of `d`.
pub open spec fn find_byte(d: Seq<u8>, i: int, b: u8) -> int
    decreases d.len() - i,
{
    if 0 <= i < d.len() && d[i] != b {
        find_byte(d, i + 1, b)
    } else {
        i
    }
}

/// What the search for `b` finds: no `b` before it, and `b` itself unless at the end.
pub proof fn lemma_find_byte(d: Seq<u8>, i: int, b: u8)
    requires
        0 <= i <= d.len(),
    ensures
        i <= find_byte(d, i, b) <= d.len(),
        find_byte(d, i, b) < d.len() ==> d[find_byte(d, i, b)] == b,
        forall|k: int| i <= k < find_byte(d, i, b) ==> d[k] != b,
    decreases d.len() - i,
{
    if i < d.len() && d[i] != b {
        lemma_find_byte(d, i + 1, b);
    }
}

/// Finds the next `b` at or after `i`.
pub fn find_byte_from(d: &[u8], i: usize, b: u8) -> (e: usize)
    requires
        i <= d.len(),
    ensures
        e == find_byte(d@, i as int, b),
        i <= e <= d.len(),
{
    let mut p = i;
    while p < d.len() && d[p] != b
        invariant
            i <= p <= d.len(),
            find_byte(d@, p as int, b) == find_byte(d@, i as int, b),
        decreases d.len() - p,
    {
        p = p + 1;
    }
    p
}

/// The end of the word that starts at `i`: the first position from `i` on where a
/// whitespace character starts, or the end of `d`.
pub open spec fn word_end(d: Seq<u8>, i: int) -> int
    decreases d.len() - i,
{
    if 0 <= i < d.len() && ws_len(d, i) == 0 {
        word_end(d, i + 1)
    } else {
        i
    }
}

/// A word ends inside `d`, after its first byte when that byte starts no whitespace.
pub proof fn lemma_word_end(d: Seq<u8>, i: int)
    requires
        0 <= i <= d.len(),
    ensures
        i <= word_end(d, i) <= d.len(),
        i < d.len() && ws_len(d, i) == 0 ==> i < word_end(d, i),
        word_end(d, i) < d.len() ==> ws_len(d, word_end(d, i)) > 0,
    decreases d.len() - i,
{
    if i < d.len() && ws_len(d, i) == 0 {
        lemma_word_end(d, i + 1);
    }
}

/// Finds the end of the word that starts at `i`.
pub fn word_end_from(d: &[u8], i: usize) -> (e: usize)
    requires
        i <= d.len(),
    ensures
        e == word_end(d@, i as int),
        i <= e <= d.len(),
{
    let mut p = i;
    while p < d.len() && ws_len_at(d, p) == 0
        invariant
            i <= p <= d.len(),
            word_end(d@, p as int) == word_end(d@, i as int),
        decreases d.len() - p,
    {
        p = p + 1;
    }
    p
}

/// The length of the whitespace character that ends just before `j`, or 0 when none does.
pub open spec fn ws_len_before(d: Seq<u8>, j: int) -> int {
    if !(0 < j <= d.len()) {
        0
    } else if d[j - 1] == 0x20 || (0x09 <= d[j - 1] <= 0x0d) {
        1
    } else if j >= 2 && ws_len(d, j - 2) == 2 {
        2
    } else if j >= 3 && ws_len(d, j - 3) == 3 {
        3
    } else {
        0
    }
}

/// Where the run of whitespace characters that ends at `j` begins, not going below `lo`.
pub open spec fn ws_back(d: Seq<u8>, lo: int, j: int) -> int
    decreases j - lo,
{
    if lo < j && ws_len_before(d, j) > 0 && j - ws_len_before(d, j) >= lo {
        ws_back(d, lo, j - ws_len_before(d, j))
    } else {
        j
    }
}

/// Length of the whitespace character that ends just before `j`, executable.
pub fn ws_len_before_at(d: &[u8], j: usize) -> (n: usize)
    requires
        j <= d.len(),
    ensures
        n == ws_len_before(d@, j as int),
        n <= j,
{
    if j == 0 {
        return 0;
    }
    let b = d[j - 1];
    if b == 0x20 || (0x09 <= b && b <= 0x0d) {
        return 1;
    }
    if j >= 2 && ws_len_at(d, j - 2) == 2 {
        return 2;
    }
    if j >= 3 && ws_len_at(d, j - 3) == 3 {
        return 3;
    }
    0
}

/// Steps back over the whitespace characters that end at `j`, not below `lo`.
pub fn ws_back_from(d: &[u8], lo: usize, j: usize) -> (r: usize)
    requires
        lo <= j <= d.len(),
    ensures
        r == ws_back(d@, lo as int, j as int),
        lo <= r <= j,
{
    let mut p = j;
    while lo < p && ws_len_before_at(d, p) > 0 && p - ws_len_before_at(d, p) >= lo
        invariant
            lo <= p <= j,
            j <= d.len(),
            ws_back(d@, lo as int, p as int) == ws_back(d@, lo as int, j as int),
        decreases p,
    {
        p = p - ws_len_before_at(d, p);
    }
    p
}


/// `str::trim` of `d[i..]`.
pub open spec fn trimmed_from(d: Seq<u8>, i: int) -> Seq<u8> {
    d.subrange(ws_run(d, i), ws_back(d, ws_run(d, i), d.len() as int))
}

/// The span of `d[i..]` that `str::trim` keeps.
pub fn trim_span(d: &[u8], i: usize) -> (r: (usize, usize))
    requires
        i <= d.len(),
    ensures
        i <= r.0 <= r.1 <= d.len(),
        d@.subrange(r.0 as int, r.1 as int) == trimmed_from(d@, i as int),
{
    let a = skip_ws(d, i);
    let z = ws_back_from(d, a, d.len());
    (a, z)
}


/// The spans of the whitespace-separated words of `d` from `i` on, as `split_whitespace`
/// cuts them.
pub open spec fn word_spans(d: Seq<u8>, i: int) -> Seq<(int, int)>
    decreases d.len() - i,
{
    if 0 <= i < d.len() && ws_run(d, i) < d.len() {
        proof {
            lemma_ws_run_stops(d, i);
            lemma_word_end(d, ws_run(d, i));
        }
        seq![(ws_run(d, i), word_end(d, ws_run(d, i)))] + word_spans(
            d,
            word_end(d, ws_run(d, i)),
        )
    } else {
        Seq::empty()
    }
}

/// The words lie inside `d` from `i` on, each holds at least one byte, and there are at
/// most as many as there are bytes.
pub proof fn lemma_word_spans(d: Seq<u8>, i: int)
    requires
        0 <= i <= d.len(),
    ensures
        word_spans(d, i).len() <= d.len() - i,
        forall|k: int|
            0 <= k < word_spans(d, i).len() ==> i <= (#[trigger] word_spans(d, i)[k]).0
                < word_spans(d, i)[k].1 <= d.len(),
    decreases d.len() - i,
{
    if i < d.len() && ws_run(d, i) < d.len() {
        lemma_ws_run_stops(d, i);
        let p = ws_run(d, i);
        lemma_word_end(d, p);
        let e = word_end(d, p);
        lemma_word_spans(d, e);
        let rest = word_spans(d, e);
        assert forall|k: int|
            0 <= k < word_spans(d, i).len() implies i <= (#[trigger] word_spans(d, i)[k]).0
                < word_spans(d, i)[k].1 <= d.len() by {
            if k > 0 {
                assert(word_spans(d, i)[k] == rest[k - 1]);
            }
        }
    }
}

/// The view of a list of spans.
pub open spec fn spans_view(v: Seq<(usize, usize)>) -> Seq<(int, int)> {
    v.map_values(|s: (usize, usize)| (s.0 as int, s.1 as int))
}

/// Cuts `d[i..]` into whitespace-separated words.
pub fn word_spans_exec(d: &[u8], i: usize) -> (r: Vec<(usize, usize)>)
    requires
        i <= d.len(),
    ensures
        spans_view(r@) == word_spans(d@, i as int),
{
    let mut out: Vec<(usize, usize)> = Vec::new();
    let mut pos = i;
    assert(spans_view(out@) + word_spans(d@, i as int) =~= word_spans(d@, i as int));
    while pos < d.len()
        invariant
            i <= pos <= d.len(),
            spans_view(out@) + word_spans(d@, pos as int) == word_spans(d@, i as int),
        decreases d.len() - pos,
    {
        let p = skip_ws(d, pos);
        if p >= d.len() {
            assert(word_spans(d@, pos as int) =~= Seq::<(int, int)>::empty());
            assert(spans_view(out@) + Seq::<(int, int)>::empty() =~= spans_view(out@));
            return out;
        }
        proof {
            lemma_ws_run_stops(d@, pos as int);
            lemma_word_end(d@, p as int);
        }
        let e = word_end_from(d, p);
        let ghost before = out@;
        out.push((p, e));
        proof {
            assert(spans_view(out@) =~= spans_view(before) + seq![(p as int, e as int)]);
            vstd::seq_lib::lemma_concat_associative(
                spans_view(before),
                seq![(p as int, e as int)],
                word_spans(d@, e as int),
            );
        }
        pos = e;
    }
    assert(word_spans(d@, pos as int) =~= Seq::<(int, int)>::empty());
    assert(spans_view(out@) + Seq::<(int, int)>::empty() =~= spans_view(out@));
    out
}

/// The bytes of a span.
pub open spec fn word(d: Seq<u8>, s: (int, int)) -> Seq<u8> {
    d.subrange(s.0, s.1)
}

} // verus!
