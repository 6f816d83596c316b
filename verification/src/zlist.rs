//! The triangulator's z-ordered node list: a list threaded through an arena of nodes by
//! `prev_z` and `next_z`, sorted by z-order key with a bottom-up merge sort of runs.
use vstd::prelude::*;

verus! {

/// A node's place in the z-ordered list: its z-order key and its neighbors.
#[derive(Clone, Copy, Debug, PartialEq, Eq)]
pub struct ZLink {
    pub z: i32,
    pub prev_z: Option<usize>,
    pub next_z: Option<usize>,
}

/// `order` runs through `nodes` by `next_z`: distinct nodes of the arena, each linked to the
/// next and the last to none.
pub open spec fn forward_chain(nodes: Seq<ZLink>, order: Seq<usize>) -> bool {
    &&& forall|i: int| 0 <= i < order.len() ==> (#[trigger] order[i]) < nodes.len()
    &&& forall|i: int, j: int| 0 <= i < j < order.len() ==> order[i] != order[j]
    &&& forall|i: int|
        0 <= i < order.len() - 1 ==> nodes[#[trigger] order[i] as int].next_z == Some(
            order[i + 1],
        )
    &&& order.len() > 0 ==> nodes[order.last() as int].next_z is None
}

/// `order` runs through `nodes` both ways: forward by `next_z` and back by `prev_z`, the
/// first node's `prev_z` being none.
pub open spec fn linked(nodes: Seq<ZLink>, order: Seq<usize>) -> bool {
    &&& forward_chain(nodes, order)
    &&& forall|i: int|
        0 < i < order.len() ==> nodes[#[trigger] order[i] as int].prev_z == Some(order[i - 1])
    &&& order.len() > 0 ==> nodes[order[0] as int].prev_z is None
}

/// Node `x` of rank `rx` comes before node `y` of rank `ry`: by key, then by rank.
pub open spec fn key_lt(nodes: Seq<ZLink>, x: usize, rx: int, y: usize, ry: int) -> bool {
    nodes[x as int].z < nodes[y as int].z || (nodes[x as int].z == nodes[y as int].z && rx < ry)
}

/// `res` holds the nodes of `orig`, `res[i]` being `orig[rk[i]]`, each once.
pub open spec fn ranked(orig: Seq<usize>, res: Seq<usize>, rk: Seq<int>) -> bool {
    &&& res.len() == orig.len()
    &&& rk.len() == orig.len()
    &&& forall|i: int|
        0 <= i < res.len() ==> 0 <= #[trigger] rk[i] < orig.len() && res[i] == orig[rk[i]]
    &&& forall|i: int, j: int| 0 <= i < j < res.len() ==> rk[i] != rk[j]
}

/// `res` is `orig` sorted by key, nodes of equal keys in their order in `orig`.
pub open spec fn stable_z_order(nodes: Seq<ZLink>, orig: Seq<usize>, res: Seq<usize>) -> bool {
    exists|rk: Seq<int>|
        {
            &&& ranked(orig, res, rk)
            &&& forall|i: int, j: int|
                0 <= i < j < res.len() ==> #[trigger] key_lt(nodes, res[i], rk[i], res[j], rk[j])
        }
}

/// Sets the `next_z` of node `i`.
fn set_next(nodes: &mut Vec<ZLink>, i: usize, v: Option<usize>)
    requires
        i < old(nodes).len(),
    ensures
        final(nodes)@ == old(nodes)@.update(i as int, ZLink { next_z: v, ..old(nodes)@[i as int] }),
{
    let mut n = nodes[i];
    n.next_z = v;
    nodes.set(i, n);
}

/// Sets the `prev_z` of node `i`.
fn set_prev(nodes: &mut Vec<ZLink>, i: usize, v: Option<usize>)
    requires
        i < old(nodes).len(),
    ensures
        final(nodes)@ == old(nodes)@.update(i as int, ZLink { prev_z: v, ..old(nodes)@[i as int] }),
{
    let mut n = nodes[i];
    n.prev_z = v;
    nodes.set(i, n);
}

/// The list `cur` is a forward chain from position `a` on.
pub open spec fn chain_from(nodes: Seq<ZLink>, cur: Seq<usize>, a: int) -> bool {
    &&& forall|j: int|
        a <= j < cur.len() - 1 ==> nodes[#[trigger] cur[j] as int].next_z == Some(cur[j + 1])
    &&& a < cur.len() ==> nodes[cur.last() as int].next_z is None
}

/// Steps from position `a` of the list up to `s` positions on: how many were taken, and
/// the node reached, none at the end of the list.
fn advance(nodes: &Vec<ZLink>, start: usize, s: usize, Ghost(cur): Ghost<Seq<usize>>, Ghost(a): Ghost<int>)
    -> (r: (usize, Option<usize>))
    requires
        0 <= a < cur.len(),
        cur[a] == start,
        s > 0,
        chain_from(nodes@, cur, a),
        forall|j: int| 0 <= j < cur.len() ==> (#[trigger] cur[j]) < nodes.len(),
    ensures
        r.0 as int == if a + s <= cur.len() {
            s as int
        } else {
            cur.len() - a
        },
        r.1 == if a + r.0 < cur.len() {
            Some(cur[a + r.0])
        } else {
            None::<usize>
        },
{
    let mut q: Option<usize> = Some(start);
    let mut p_size: usize = 0;
    while p_size < s && q.is_some()
        invariant
            0 <= a < cur.len(),
            s > 0,
            p_size <= s,
            a + p_size <= cur.len(),
            chain_from(nodes@, cur, a),
            forall|j: int| 0 <= j < cur.len() ==> (#[trigger] cur[j]) < nodes.len(),
            q == if a + p_size < cur.len() {
                Some(cur[a + p_size])
            } else {
                None::<usize>
            },
        decreases s - p_size,
    {
        let node = q.unwrap();
        proof {
            let j = a + p_size;
            if j < cur.len() - 1 {
                assert(nodes@[cur[j] as int].next_z == Some(cur[j + 1]));
            } else {
                assert(cur[j] == cur.last());
            }
        }
        p_size = p_size + 1;
        q = nodes[node].next_z;
    }
    (p_size, q)
}


/// `orig` lists distinct nodes of an arena of `len` nodes.
pub open spec fn distinct_nodes(len: int, orig: Seq<usize>) -> bool {
    &&& forall|i: int| 0 <= i < orig.len() ==> (#[trigger] orig[i]) < len
    &&& forall|i: int, j: int| 0 <= i < j < orig.len() ==> orig[i] != orig[j]
}

/// A pass over `cur` with runs of `s` positions: `cur` holds the nodes of `orig` by rank
/// `rk`, each run holds the nodes of the same run of ranks, and each run is sorted.
#[verifier::opaque]
pub open spec fn runs_sorted(nodes: Seq<ZLink>, orig: Seq<usize>, cur: Seq<usize>, rk: Seq<int>, s: int) -> bool {
    &&& ranked(orig, cur, rk)
    &&& forall|j: int| 0 <= j < cur.len() ==> (#[trigger] rk[j]) / s == j / s
    &&& forall|i: int, j: int|
        0 <= i < j < cur.len() && i / s == j / s ==> #[trigger] key_lt(
            nodes,
            cur[i],
            rk[i],
            cur[j],
            rk[j],
        )
}

/// The output of a pass so far, the positions `pos` of `cur` in order: linked both ways
/// but for the last node's `next_z`, with `head` and `tail` at its ends.
#[verifier::opaque]
pub open spec fn merged_prefix(
    nodes: Seq<ZLink>,
    cur: Seq<usize>,
    pos: Seq<int>,
    head: Option<usize>,
    tail: Option<usize>,
) -> bool {
    &&& forall|i: int|
        0 <= i < pos.len() - 1 ==> nodes[cur[#[trigger] pos[i]] as int].next_z == Some(
            cur[pos[i + 1]],
        )
    &&& forall|i: int|
        0 < i < pos.len() ==> nodes[cur[#[trigger] pos[i]] as int].prev_z == Some(
            cur[pos[i - 1]],
        )
    &&& pos.len() > 0 ==> nodes[cur[pos[0]] as int].prev_z is None
    &&& head == if pos.len() > 0 {
        Some(cur[pos[0]])
    } else {
        None::<usize>
    }
    &&& tail == if pos.len() > 0 {
        Some(cur[pos.last()])
    } else {
        None::<usize>
    }
}

/// The output of a pass so far comes in sorted runs of `s2` positions, each taken from the
/// same run of `cur`.
#[verifier::opaque]
pub open spec fn merged_runs(nodes: Seq<ZLink>, cur: Seq<usize>, rk: Seq<int>, pos: Seq<int>, s2: int) -> bool {
    &&& forall|i: int| 0 <= i < pos.len() ==> (#[trigger] pos[i]) / s2 == i / s2
    &&& forall|i: int, j: int|
        0 <= i < j < pos.len() && i / s2 == j / s2 ==> #[trigger] key_lt(
            nodes,
            cur[pos[i]],
            rk[pos[i]],
            cur[pos[j]],
            rk[pos[j]],
        )
}

/// The nodes of the arena outside `orig` keep their links, and every node its key.
#[verifier::opaque]
pub open spec fn frame(nodes0: Seq<ZLink>, nodes: Seq<ZLink>, orig: Seq<usize>) -> bool {
    &&& nodes.len() == nodes0.len()
    &&& forall|k: int| 0 <= k < nodes.len() ==> (#[trigger] nodes[k]).z == nodes0[k].z
    &&& forall|k: int|
        0 <= k < nodes.len() && !orig.contains(k as usize) ==> #[trigger] nodes[k] == nodes0[k]
}

/// A position in `[m s, m s + s)` lies in run `m`.
proof fn lemma_run(j: int, s: int, m: int)
    requires
        s > 0,
        m * s <= j < m * s + s,
    ensures
        j / s == m,
{
    vstd::arithmetic::div_mod::lemma_fundamental_div_mod_converse(j, s, m, j - m * s);
}

/// Distinct nodes of an arena are no more than its nodes.
proof fn lemma_distinct_len(orig: Seq<usize>, len: int)
    requires
        distinct_nodes(len, orig),
        0 <= len <= usize::MAX,
    ensures
        orig.len() <= len,
{
    let r = <usize as vstd::set_lib::FiniteRange>::range_set(0, len as usize);
    <usize as vstd::set_lib::FiniteRange>::range_properties(0, len as usize);
    assert(orig.no_duplicates());
    orig.unique_seq_to_set();
    assert(orig.to_set().subset_of(r));
    vstd::set_lib::lemma_len_subset(orig.to_set(), r);
}

/// Key order is transitive.
proof fn lemma_key_trans(nodes: Seq<ZLink>, x: usize, rx: int, y: usize, ry: int, w: usize, rw: int)
    requires
        key_lt(nodes, x, rx, y, ry),
        key_lt(nodes, y, ry, w, rw),
    ensures
        key_lt(nodes, x, rx, w, rw),
{
}

/// Distinct ranks name distinct nodes.
proof fn lemma_ranked_distinct(orig: Seq<usize>, cur: Seq<usize>, rk: Seq<int>, len: int)
    requires
        ranked(orig, cur, rk),
        distinct_nodes(len, orig),
    ensures
        forall|i: int, j: int| 0 <= i < cur.len() && 0 <= j < cur.len() && i != j ==> cur[i] != cur[j],
        forall|i: int| 0 <= i < cur.len() ==> (#[trigger] cur[i]) < len && orig.contains(cur[i]),
{
    assert forall|i: int, j: int| 0 <= i < cur.len() && 0 <= j < cur.len() && i != j implies cur[i] != cur[j] by {
        assert(cur[i] == orig[rk[i]] && cur[j] == orig[rk[j]]);
        if i < j {
            assert(rk[i] != rk[j]);
        } else {
            assert(rk[j] != rk[i]);
        }
    }
    assert forall|i: int| 0 <= i < cur.len() implies (#[trigger] cur[i]) < len && orig.contains(cur[i]) by {
        assert(cur[i] == orig[rk[i]]);
    }
}


/// A position in run `k` lies in `[k s, k s + s)`.
proof fn lemma_run_bounds(x: int, s: int)
    requires
        s > 0,
        x >= 0,
    ensures
        (x / s) * s <= x < (x / s) * s + s,
{
    vstd::arithmetic::div_mod::lemma_fundamental_div_mod(x, s);
    vstd::arithmetic::mul::lemma_mul_is_commutative(s, x / s);
}

/// Whether position `j` of `cur` is still to be merged: in the first run from `a + pt` on,
/// or in the second run from `b + qt` on.
pub open spec fn pending(j: int, a: int, pt: int, b: int, qt: int, qend: int) -> bool {
    (a + pt <= j < b) || (b + qt <= j < qend)
}

/// The positions still to be merged, and those after the pair, keep their forward links.
#[verifier::opaque]
pub open spec fn pending_links(
    nodes: Seq<ZLink>,
    cur: Seq<usize>,
    a: int,
    pt: int,
    b: int,
    qt: int,
    qend: int,
) -> bool {
    &&& forall|j: int|
        (pending(j, a, pt, b, qt, qend) || qend <= j) && j < cur.len() - 1
            ==> nodes[#[trigger] cur[j] as int].next_z == Some(cur[j + 1])
    &&& (pending(cur.len() - 1, a, pt, b, qt, qend) || qend < cur.len()) ==> nodes[cur[cur.len()
        - 1] as int].next_z is None
}

/// The nodes merged from the pair so far are sorted and come before every pending one.
#[verifier::opaque]
pub open spec fn merge_sorted(
    nodes: Seq<ZLink>,
    cur: Seq<usize>,
    rk: Seq<int>,
    pos2: Seq<int>,
    a: int,
    pt: int,
    b: int,
    qt: int,
    qend: int,
) -> bool {
    &&& forall|i: int, j: int|
        a <= i < j < pos2.len() ==> #[trigger] key_lt(
            nodes,
            cur[pos2[i]],
            rk[pos2[i]],
            cur[pos2[j]],
            rk[pos2[j]],
        )
    &&& forall|i: int, j: int|
        a <= i < pos2.len() && pending(j, a, pt, b, qt, qend) ==> #[trigger] key_lt(
            nodes,
            cur[pos2[i]],
            rk[pos2[i]],
            cur[j],
            rk[j],
        )
}

/// Key order depends on the keys alone.
proof fn lemma_keys_kept(n1: Seq<ZLink>, n2: Seq<ZLink>)
    requires
        n1.len() == n2.len(),
        forall|k: int| 0 <= k < n1.len() ==> (#[trigger] n2[k]).z == n1[k].z,
    ensures
        forall|x: usize, rx: int, y: usize, ry: int|
            x < n1.len() && y < n1.len() ==> #[trigger] key_lt(n2, x, rx, y, ry) == key_lt(
                n1,
                x,
                rx,
                y,
                ry,
            ),
{
    assert forall|x: usize, rx: int, y: usize, ry: int|
        x < n1.len() && y < n1.len() implies #[trigger] key_lt(n2, x, rx, y, ry) == key_lt(
        n1,
        x,
        rx,
        y,
        ry,
    ) by {
        assert(n2[x as int].z == n1[x as int].z);
        assert(n2[y as int].z == n1[y as int].z);
    }
}

/// The pass invariants that depend on keys alone survive a change of links.
proof fn lemma_runs_kept(
    n1: Seq<ZLink>,
    n2: Seq<ZLink>,
    nodes0: Seq<ZLink>,
    orig: Seq<usize>,
    cur: Seq<usize>,
    rk: Seq<int>,
    pos: Seq<int>,
    s: int,
)
    requires
        n1.len() == n2.len(),
        forall|k: int| 0 <= k < n1.len() ==> (#[trigger] n2[k]).z == n1[k].z,
        forall|k: int| 0 <= k < n2.len() && !orig.contains(k as usize) ==> #[trigger] n2[k] == n1[k],
        distinct_nodes(n1.len() as int, orig),
        runs_sorted(n1, orig, cur, rk, s),
        merged_runs(n1, cur, rk, pos, 2 * s),
        forall|i: int| 0 <= i < pos.len() ==> 0 <= #[trigger] pos[i] < cur.len(),
        frame(nodes0, n1, orig),
    ensures
        runs_sorted(n2, orig, cur, rk, s),
        merged_runs(n2, cur, rk, pos, 2 * s),
        frame(nodes0, n2, orig),
{
    reveal(runs_sorted);
    reveal(merged_runs);
    reveal(frame);
    lemma_keys_kept(n1, n2);
    lemma_ranked_distinct(orig, cur, rk, n1.len() as int);
    assert forall|i: int, j: int|
        0 <= i < j < cur.len() && i / s == j / s implies #[trigger] key_lt(
        n2,
        cur[i],
        rk[i],
        cur[j],
        rk[j],
    ) by {
        assert(key_lt(n1, cur[i], rk[i], cur[j], rk[j]));
    }
    assert forall|i: int, j: int|
        0 <= i < j < pos.len() && i / (2 * s) == j / (2 * s) implies #[trigger] key_lt(
        n2,
        cur[pos[i]],
        rk[pos[i]],
        cur[pos[j]],
        rk[pos[j]],
    ) by {
        assert(key_lt(n1, cur[pos[i]], rk[pos[i]], cur[pos[j]], rk[pos[j]]));
    }
}

/// The node at pending position `j0` comes before every other pending node: in its own run
/// by the run's order, in the other run by the comparison that chose it.
proof fn lemma_taken_first(
    nodes: Seq<ZLink>,
    orig: Seq<usize>,
    cur: Seq<usize>,
    rk: Seq<int>,
    ss: int,
    m2: int,
    a: int,
    pt: int,
    b: int,
    qt: int,
    qend: int,
    take_p: bool,
    j0: int,
)
    requires
        j0 == if take_p {
            a + pt
        } else {
            b + qt
        },
        ss > 0,
        m2 >= 0,
        a == m2 * (2 * ss),
        runs_sorted(nodes, orig, cur, rk, ss),
        forall|k: int| 0 <= k < cur.len() ==> (#[trigger] cur[k]) < nodes.len(),
        b == a + ss || (b == cur.len() && b <= a + ss),
        qend == if a + 2 * ss <= cur.len() {
            a + 2 * ss
        } else {
            cur.len() as int
        },
        0 <= pt,
        a + pt <= b,
        0 <= qt,
        b + qt <= qend,
        take_p ==> a + pt < b,
        take_p && b + qt < qend ==> nodes[cur[a + pt] as int].z <= nodes[cur[b + qt] as int].z,
        !take_p ==> b + qt < qend,
        !take_p && a + pt < b ==> nodes[cur[a + pt] as int].z > nodes[cur[b + qt] as int].z,
    ensures
        forall|j: int|
            pending(j, a, pt, b, qt, qend) && j != j0 ==> #[trigger] key_lt(
                nodes,
                cur[j0],
                rk[j0],
                cur[j],
                rk[j],
            ),
{
    reveal(runs_sorted);
    assert((2 * m2) * ss == a && (2 * m2 + 1) * ss == a + ss) by (nonlinear_arith)
        requires
            a == m2 * (2 * ss),
    ;
    assert(b + qt < qend ==> b == a + ss);
    assert forall|j: int|
        pending(j, a, pt, b, qt, qend) && j != j0 implies #[trigger] key_lt(
        nodes,
        cur[j0],
        rk[j0],
        cur[j],
        rk[j],
    ) by {
        if take_p {
            lemma_run(j0, ss, 2 * m2);
            if j < b {
                lemma_run(j, ss, 2 * m2);
            } else {
                let k = b + qt;
                lemma_run(k, ss, 2 * m2 + 1);
                assert(0 <= rk[j0] && 0 <= rk[k]);
                lemma_run_bounds(rk[j0], ss);
                lemma_run_bounds(rk[k], ss);
                assert(key_lt(nodes, cur[j0], rk[j0], cur[k], rk[k]));
                if j > k {
                    lemma_run(j, ss, 2 * m2 + 1);
                    assert(key_lt(nodes, cur[k], rk[k], cur[j], rk[j]));
                    lemma_key_trans(nodes, cur[j0], rk[j0], cur[k], rk[k], cur[j], rk[j]);
                }
            }
        } else {
            lemma_run(j0, ss, 2 * m2 + 1);
            if j >= b {
                lemma_run(j, ss, 2 * m2 + 1);
            } else {
                let k = a + pt;
                lemma_run(k, ss, 2 * m2);
                assert(key_lt(nodes, cur[j0], rk[j0], cur[k], rk[k]));
                if j > k {
                    lemma_run(j, ss, 2 * m2);
                    assert(key_lt(nodes, cur[k], rk[k], cur[j], rk[j]));
                    lemma_key_trans(nodes, cur[j0], rk[j0], cur[k], rk[k], cur[j], rk[j]);
                }
            }
        }
    }
}

/// The facts about one append step: the node at pending position `j0` goes after the
/// tail, whose `next_z` now names it, and only those two nodes change.
pub open spec fn append_step(
    n1: Seq<ZLink>,
    n2: Seq<ZLink>,
    cur: Seq<usize>,
    pos2: Seq<int>,
    tail: Option<usize>,
    j0: int,
) -> bool {
    &&& 0 <= j0 < cur.len()
    &&& forall|i: int, j: int| 0 <= i < cur.len() && 0 <= j < cur.len() && i != j ==> cur[i] != cur[j]
    &&& forall|k: int| 0 <= k < cur.len() ==> (#[trigger] cur[k]) < n1.len()
    &&& forall|i: int| 0 <= i < pos2.len() ==> 0 <= #[trigger] pos2[i] < cur.len() && pos2[i] != j0
    &&& forall|i: int, j: int| 0 <= i < j < pos2.len() ==> pos2[i] != pos2[j]
    &&& n2.len() == n1.len()
    &&& forall|k: int| 0 <= k < n1.len() ==> (#[trigger] n2[k]).z == n1[k].z
    &&& forall|k: int|
        0 <= k < n1.len() && k != cur[j0] as int && (tail is None || k != tail->Some_0 as int)
            ==> #[trigger] n2[k] == n1[k]
    &&& n2[cur[j0] as int].prev_z == tail
    &&& n2[cur[j0] as int].next_z == n1[cur[j0] as int].next_z
    &&& (tail matches Some(t) ==> n2[t as int].next_z == Some(cur[j0]) && n2[t as int].prev_z
        == n1[t as int].prev_z)
}

/// Appending keeps the output linked.
proof fn lemma_append_prefix(
    n1: Seq<ZLink>,
    n2: Seq<ZLink>,
    cur: Seq<usize>,
    pos2: Seq<int>,
    head: Option<usize>,
    tail: Option<usize>,
    head2: Option<usize>,
    j0: int,
)
    requires
        append_step(n1, n2, cur, pos2, tail, j0),
        merged_prefix(n1, cur, pos2, head, tail),
        head2 == if pos2.len() > 0 {
            head
        } else {
            Some(cur[j0])
        },
    ensures
        merged_prefix(n2, cur, pos2.push(j0), head2, Some(cur[j0])),
{
    reveal(merged_prefix);
    let p2 = pos2.push(j0);
    assert forall|i: int| 0 <= i < pos2.len() - 1 implies n2[cur[#[trigger] pos2[i]] as int]
        == n1[cur[pos2[i]] as int] by {
        assert(cur[pos2[i]] != cur[j0]);
        assert(cur[pos2[i]] != cur[pos2.last()]) by {
            assert(pos2[i] != pos2[pos2.len() - 1]);
        }
    }
    assert forall|i: int| 0 <= i < p2.len() - 1 implies n2[cur[#[trigger] p2[i]] as int].next_z
        == Some(cur[p2[i + 1]]) by {
        if i < pos2.len() - 1 {
            assert(p2[i] == pos2[i] && p2[i + 1] == pos2[i + 1]);
            assert(n2[cur[pos2[i]] as int] == n1[cur[pos2[i]] as int]);
        } else {
            assert(p2[i] == pos2.last());
        }
    }
    assert forall|i: int| 0 < i < p2.len() implies n2[cur[#[trigger] p2[i]] as int].prev_z == Some(
        cur[p2[i - 1]],
    ) by {
        if i < pos2.len() {
            assert(p2[i] == pos2[i] && p2[i - 1] == pos2[i - 1]);
            assert(cur[pos2[i]] != cur[j0]);
            if i < pos2.len() - 1 {
                assert(n2[cur[pos2[i]] as int] == n1[cur[pos2[i]] as int]);
            }
        } else {
            assert(p2[i] == j0);
        }
    }
    if pos2.len() > 0 {
        assert(p2[0] == pos2[0]);
        assert(cur[pos2[0]] != cur[j0]);
        if pos2.len() > 1 {
            assert(n2[cur[pos2[0]] as int] == n1[cur[pos2[0]] as int]);
        }
    }
}

/// Appending keeps the links of the positions still pending.
proof fn lemma_append_links(
    n1: Seq<ZLink>,
    n2: Seq<ZLink>,
    cur: Seq<usize>,
    pos2: Seq<int>,
    tail: Option<usize>,
    a: int,
    pt: int,
    b: int,
    qt: int,
    qend: int,
    take_p: bool,
)
    requires
        ({
            let j0 = if take_p {
                a + pt
            } else {
                b + qt
            };
            &&& append_step(n1, n2, cur, pos2, tail, j0)
            &&& pending(j0, a, pt, b, qt, qend)
            &&& forall|i: int| 0 <= i < pos2.len() ==> !pending(#[trigger] pos2[i], a, pt, b, qt, qend)
                && pos2[i] < qend
            &&& tail == if pos2.len() > 0 {
                Some(cur[pos2.last()])
            } else {
                None::<usize>
            }
        }),
        pending_links(n1, cur, a, pt, b, qt, qend),
        0 <= a,
        0 <= pt,
        a + pt <= b,
        0 <= qt,
        b + qt <= qend <= cur.len(),
        take_p ==> a + pt < b,
        !take_p ==> b + qt < qend,
    ensures
        pending_links(
            n2,
            cur,
            a,
            if take_p {
                pt + 1
            } else {
                pt
            },
            b,
            if take_p {
                qt
            } else {
                qt + 1
            },
            qend,
        ),
{
    reveal(pending_links);
    let j0 = if take_p {
        a + pt
    } else {
        b + qt
    };
    let pt2 = if take_p {
        pt + 1
    } else {
        pt
    };
    let qt2 = if take_p {
        qt
    } else {
        qt + 1
    };
    assert forall|j: int|
        (pending(j, a, pt2, b, qt2, qend) || qend <= j) && j < cur.len() - 1 implies n2[#[trigger] cur[j] as int].next_z
        == Some(cur[j + 1]) by {
        assert(j != j0);
        assert(cur[j] != cur[j0]);
        if pos2.len() > 0 {
            assert(!pending(pos2[pos2.len() - 1], a, pt, b, qt, qend) && pos2[pos2.len() - 1] < qend);
            assert(pos2.last() != j);
            assert(cur[j] != cur[pos2.last()]);
        }
        assert(cur[j] < n1.len());
        assert(n2[cur[j] as int] == n1[cur[j] as int]);
    }
    let l = cur.len() - 1;
    if pending(l, a, pt2, b, qt2, qend) || qend < cur.len() {
        assert(l != j0);
        assert(cur[l] != cur[j0]);
        if pos2.len() > 0 {
            assert(!pending(pos2[pos2.len() - 1], a, pt, b, qt, qend) && pos2[pos2.len() - 1] < qend);
            assert(pos2.last() != l);
            assert(cur[l] != cur[pos2.last()]);
        }
        assert(cur[l] < n1.len());
        assert(n2[cur[l] as int] == n1[cur[l] as int]);
    }
}

/// Appending the first pending node keeps the merged nodes sorted and before the rest.
proof fn lemma_append_sorted(
    n1: Seq<ZLink>,
    n2: Seq<ZLink>,
    cur: Seq<usize>,
    rk: Seq<int>,
    pos2: Seq<int>,
    a: int,
    pt: int,
    b: int,
    qt: int,
    qend: int,
    take_p: bool,
    j0: int,
)
    requires
        j0 == if take_p {
            a + pt
        } else {
            b + qt
        },
        n2.len() == n1.len(),
        forall|k: int| 0 <= k < n1.len() ==> (#[trigger] n2[k]).z == n1[k].z,
        forall|k: int| 0 <= k < cur.len() ==> (#[trigger] cur[k]) < n1.len(),
        forall|i: int| 0 <= i < pos2.len() ==> 0 <= #[trigger] pos2[i] < cur.len(),
        0 <= a <= pos2.len(),
        0 <= pt,
        a + pt <= b,
        0 <= qt,
        b + qt <= qend <= cur.len(),
        take_p ==> a + pt < b,
        !take_p ==> b + qt < qend,
        pending(j0, a, pt, b, qt, qend),
        forall|j: int|
            pending(j, a, pt, b, qt, qend) && j != j0 ==> #[trigger] key_lt(
                n1,
                cur[j0],
                rk[j0],
                cur[j],
                rk[j],
            ),
        merge_sorted(n1, cur, rk, pos2, a, pt, b, qt, qend),
    ensures
        merge_sorted(
            n2,
            cur,
            rk,
            pos2.push(j0),
            a,
            if take_p {
                pt + 1
            } else {
                pt
            },
            b,
            if take_p {
                qt
            } else {
                qt + 1
            },
            qend,
        ),
{
    reveal(merge_sorted);
    let pt2 = if take_p {
        pt + 1
    } else {
        pt
    };
    let qt2 = if take_p {
        qt
    } else {
        qt + 1
    };
    let p2 = pos2.push(j0);
    lemma_keys_kept(n1, n2);
    assert forall|i: int, j: int| a <= i < j < p2.len() implies #[trigger] key_lt(
        n2,
        cur[p2[i]],
        rk[p2[i]],
        cur[p2[j]],
        rk[p2[j]],
    ) by {
        assert(p2[i] == pos2[i]);
        assert(0 <= pos2[i] < cur.len());
        assert(cur[pos2[i]] < n1.len());
        assert(0 <= j0 < cur.len());
        assert(cur[j0] < n1.len());
        if j < pos2.len() {
            assert(0 <= pos2[j] < cur.len());
            assert(cur[pos2[j]] < n1.len());
            assert(p2[j] == pos2[j]);
            assert(key_lt(n1, cur[pos2[i]], rk[pos2[i]], cur[pos2[j]], rk[pos2[j]]));
        } else {
            assert(p2[j] == j0);
            assert(key_lt(n1, cur[pos2[i]], rk[pos2[i]], cur[j0], rk[j0]));
        }
    }
    assert forall|i: int, j: int|
        a <= i < p2.len() && pending(j, a, pt2, b, qt2, qend) implies #[trigger] key_lt(
        n2,
        cur[p2[i]],
        rk[p2[i]],
        cur[j],
        rk[j],
    ) by {
        assert(j != j0 && pending(j, a, pt, b, qt, qend));
        assert(0 <= j < cur.len() && cur[j] < n1.len());
        assert(0 <= j0 < cur.len() && cur[j0] < n1.len());
        if i < pos2.len() {
            assert(0 <= pos2[i] < cur.len() && cur[pos2[i]] < n1.len());
            assert(p2[i] == pos2[i]);
            assert(key_lt(n1, cur[pos2[i]], rk[pos2[i]], cur[j], rk[j]));
        } else {
            assert(p2[i] == j0);
            assert(key_lt(n1, cur[j0], rk[j0], cur[j], rk[j]));
        }
    }
}


/// A position before run `m` lies in an earlier run.
proof fn lemma_run_before(i: int, d: int, m: int)
    requires
        d > 0,
        0 <= i < m * d,
    ensures
        i / d < m,
{
    lemma_run_bounds(i, d);
    if i / d >= m {
        assert((i / d) * d >= m * d) by (nonlinear_arith)
            requires
                i / d >= m,
                d > 0,
        ;
    }
}

/// Merges the two runs of `s` positions of `cur` that start where the output ends (at `p`)
/// onto the output, and returns where the next pair of runs starts with the output's
/// positions.
#[verifier::rlimit(100)]
fn merge_pair(
    nodes: &mut Vec<ZLink>,
    head: &mut Option<usize>,
    tail: &mut Option<usize>,
    p: usize,
    s: usize,
    Ghost(orig): Ghost<Seq<usize>>,
    Ghost(cur): Ghost<Seq<usize>>,
    Ghost(rk): Ghost<Seq<int>>,
    Ghost(pos): Ghost<Seq<int>>,
    Ghost(nodes0): Ghost<Seq<ZLink>>,
) -> (r: (Option<usize>, Ghost<Seq<int>>))
    requires
        s > 0,
        pos.len() < cur.len(),
        (pos.len() as int) % (2 * (s as int)) == 0,
        cur[pos.len() as int] == p,
        distinct_nodes(old(nodes).len() as int, orig),
        runs_sorted(old(nodes)@, orig, cur, rk, s as int),
        chain_from(old(nodes)@, cur, pos.len() as int),
        forall|i: int| 0 <= i < pos.len() ==> 0 <= #[trigger] pos[i] < pos.len(),
        forall|i: int, j: int| 0 <= i < j < pos.len() ==> pos[i] != pos[j],
        merged_prefix(old(nodes)@, cur, pos, *old(head), *old(tail)),
        merged_runs(old(nodes)@, cur, rk, pos, 2 * s),
        frame(nodes0, old(nodes)@, orig),
    ensures
        ({
            let a = pos.len() as int;
            let qend = if a + 2 * s <= cur.len() {
                a + 2 * s
            } else {
                cur.len() as int
            };
            let pos2 = r.1@;
            &&& pos2.len() == qend
            &&& pos2.subrange(0, a) == pos
            &&& forall|i: int| 0 <= i < qend ==> 0 <= #[trigger] pos2[i] < qend
            &&& forall|i: int, j: int| 0 <= i < j < qend ==> pos2[i] != pos2[j]
            &&& r.0 == if qend < cur.len() {
                Some(cur[qend])
            } else {
                None::<usize>
            }
            &&& chain_from(final(nodes)@, cur, qend)
            &&& merged_prefix(final(nodes)@, cur, pos2, *final(head), *final(tail))
            &&& merged_runs(final(nodes)@, cur, rk, pos2, 2 * s)
            &&& runs_sorted(final(nodes)@, orig, cur, rk, s as int)
            &&& frame(nodes0, final(nodes)@, orig)
            &&& final(nodes).len() == old(nodes).len()
        }),
{
    let ghost a = pos.len() as int;
    let ghost n = cur.len() as int;
    let ghost ss = s as int;
    let ghost m2 = a / (2 * ss);
    proof {
        assert(ranked(orig, cur, rk)) by {
            reveal(runs_sorted);
        }
        lemma_ranked_distinct(orig, cur, rk, nodes.len() as int);
        vstd::arithmetic::div_mod::lemma_fundamental_div_mod(a, 2 * ss);
        assert(a == m2 * (2 * ss)) by (nonlinear_arith)
            requires
                a == (2 * ss) * (a / (2 * ss)) + a % (2 * ss),
                a % (2 * ss) == 0,
                m2 == a / (2 * ss),
        ;
        assert(m2 >= 0) by (nonlinear_arith)
            requires
                a == m2 * (2 * ss),
                a >= 0,
                ss > 0,
        ;
    }
    let (ps, q0) = advance(nodes, p, s, Ghost(cur), Ghost(a));
    let ghost b = a + ps;
    let ghost qend = if a + 2 * ss <= n {
        a + 2 * ss
    } else {
        n
    };
    let mut p_opt: Option<usize> = Some(p);
    let mut p_size: usize = ps;
    let mut q: Option<usize> = q0;
    let mut q_size: usize = s;
    let ghost mut pt: int = 0;
    let ghost mut qt: int = 0;
    let ghost mut pos2: Seq<int> = pos;
    proof {
        assert(pos2.subrange(0, a) =~= pos);
        reveal(pending_links);
        reveal(merge_sorted);
    }
    while p_size > 0 || (q_size > 0 && q.is_some())
        invariant
            s > 0,
            ss == s,
            n == cur.len(),
            0 <= a < n,
            a == m2 * (2 * ss),
            m2 >= 0,
            b == a + ps,
            ps as int == if a + ss <= n {
                ss
            } else {
                n - a
            },
            qend == if a + 2 * ss <= n {
                a + 2 * ss
            } else {
                n
            },
            0 <= pt <= ps,
            0 <= qt <= ss,
            b + qt <= qend,
            p_size == ps - pt,
            q_size == ss - qt,
            pt < ps ==> p_opt == Some(cur[a + pt]),
            q == if b + qt < n {
                Some(cur[b + qt])
            } else {
                None::<usize>
            },
            pos2.len() == a + pt + qt,
            pos2.subrange(0, a) == pos,
            forall|i: int| 0 <= i < a ==> 0 <= #[trigger] pos2[i] < a,
            forall|i: int|
                a <= i < pos2.len() ==> (a <= #[trigger] pos2[i] < a + pt) || (b <= pos2[i] < b
                    + qt),
            forall|i: int, j: int| 0 <= i < j < pos2.len() ==> pos2[i] != pos2[j],
            forall|i: int, j: int| 0 <= i < n && 0 <= j < n && i != j ==> cur[i] != cur[j],
            forall|i: int| 0 <= i < n ==> (#[trigger] cur[i]) < nodes.len() && orig.contains(cur[i]),
            pending_links(nodes@, cur, a, pt, b, qt, qend),
            merged_prefix(nodes@, cur, pos2, *head, *tail),
            merged_runs(nodes@, cur, rk, pos, 2 * ss),
            merge_sorted(nodes@, cur, rk, pos2, a, pt, b, qt, qend),
            forall|i: int| 0 <= i < pos.len() ==> 0 <= #[trigger] pos[i] < pos.len(),
            distinct_nodes(nodes.len() as int, orig),
            runs_sorted(nodes@, orig, cur, rk, ss),
            frame(nodes0, nodes@, orig),
            nodes.len() == old(nodes).len(),
        decreases ps - pt + ss - qt,
    {
        let take_p = p_size != 0 && (q_size == 0 || q.is_none() || nodes[p_opt.unwrap()].z
            <= nodes[q.unwrap()].z);
        let ghost j0 = if take_p {
            a + pt
        } else {
            b + qt
        };
        proof {
            lemma_taken_first(nodes@, orig, cur, rk, ss, m2, a, pt, b, qt, qend, take_p, j0);
            reveal(pending_links);
        }
        let e = if take_p {
            p_opt.unwrap()
        } else {
            q.unwrap()
        };
        assert(e == cur[j0]);
        let next = nodes[e].next_z;
        assert(next == if j0 < n - 1 {
            Some(cur[j0 + 1])
        } else {
            None::<usize>
        });
        if take_p {
            p_opt = next;
            p_size = p_size - 1;
        } else {
            q = next;
            q_size = q_size - 1;
        }
        let ghost n1 = nodes@;
        let ghost head1 = *head;
        let ghost tail1 = *tail;
        proof {
            assert(*tail == if pos2.len() > 0 {
                Some(cur[pos2.last()])
            } else {
                None::<usize>
            }) by {
                reveal(merged_prefix);
            }
            if pos2.len() > 0 {
                let l = pos2[pos2.len() - 1];
                assert(l != j0);
                assert(0 <= l < n);
                assert(cur[l] != cur[j0]);
                assert(orig.contains(cur[l]));
            }
            assert(orig.contains(cur[j0]));
        }
        match *tail {
            Some(t) => {
                set_next(nodes, t, Some(e));
            },
            None => {
                *head = Some(e);
            },
        }
        set_prev(nodes, e, *tail);
        *tail = Some(e);
        proof {
            let n2 = nodes@;
            assert forall|k: int|
                0 <= k < n1.len() && k != cur[j0] as int && (tail1 is None || k
                    != tail1->Some_0 as int) implies #[trigger] n2[k] == n1[k] by {}
            assert forall|k: int| 0 <= k < n1.len() implies (#[trigger] n2[k]).z == n1[k].z by {}
            assert forall|i: int| 0 <= i < pos2.len() implies 0 <= #[trigger] pos2[i] < cur.len()
                && pos2[i] != j0 by {}
            assert(append_step(n1, n2, cur, pos2, tail1, j0));
            lemma_append_prefix(n1, n2, cur, pos2, head1, tail1, *head, j0);
            assert forall|i: int| 0 <= i < pos2.len() implies !pending(
                #[trigger] pos2[i],
                a,
                pt,
                b,
                qt,
                qend,
            ) && pos2[i] < qend by {}
            lemma_append_links(n1, n2, cur, pos2, tail1, a, pt, b, qt, qend, take_p);
            lemma_append_sorted(n1, n2, cur, rk, pos2, a, pt, b, qt, qend, take_p, j0);
            assert forall|k: int| 0 <= k < n2.len() && !orig.contains(k as usize) implies #[trigger] n2[k]
                == n1[k] by {}
            lemma_runs_kept(n1, n2, nodes0, orig, cur, rk, pos, ss);
            let old_pos2 = pos2;
            if take_p {
                pt = pt + 1;
            } else {
                qt = qt + 1;
            }
            pos2 = pos2.push(j0);
            assert(pos2.subrange(0, a) =~= old_pos2.subrange(0, a));
        }
    }
    proof {
        assert(pt == ps && b + qt == qend);
        assert(chain_from(nodes@, cur, qend)) by {
            reveal(pending_links);
        }
        assert(merged_runs(nodes@, cur, rk, pos2, 2 * ss)) by {
            reveal(merge_sorted);
            reveal(merged_runs);
            assert((2 * ss) > 0);
            assert forall|i: int| 0 <= i < pos2.len() implies (#[trigger] pos2[i]) / (2 * ss) == i
                / (2 * ss) by {
                if i < a {
                    assert(pos2[i] == pos[i]);
                } else {
                    lemma_run(i, 2 * ss, m2);
                    lemma_run(pos2[i], 2 * ss, m2);
                }
            }
            assert forall|i: int, j: int|
                0 <= i < j < pos2.len() && i / (2 * ss) == j / (2 * ss) implies #[trigger] key_lt(
                nodes@,
                cur[pos2[i]],
                rk[pos2[i]],
                cur[pos2[j]],
                rk[pos2[j]],
            ) by {
                if j < a {
                    assert(pos2[i] == pos[i] && pos2[j] == pos[j]);
                } else if i >= a {
                } else {
                    lemma_run(j, 2 * ss, m2);
                    lemma_run_before(i, 2 * ss, m2);
                }
            }
        }
    }
    (q, Ghost(pos2))
}


/// A run of `2 s` positions holds the positions of two runs of `s`.
proof fn lemma_double_run(x: int, s: int)
    requires
        x >= 0,
        s > 0,
    ensures
        x / (2 * s) == (x / s) / 2,
{
    vstd::arithmetic::div_mod::lemma_div_denominator(x, s, 2);
    assert(s * 2 == 2 * s);
}

/// One pass of the merge sort over the list `cur`, whose runs of `s` positions are sorted:
/// merges the runs in pairs into sorted runs of `2 s`, and returns the new list's head,
/// how many pairs it merged, the new list and its ranks.
#[verifier::rlimit(100)]
fn merge_pass(
    nodes: &mut Vec<ZLink>,
    list: usize,
    s: usize,
    Ghost(orig): Ghost<Seq<usize>>,
    Ghost(cur): Ghost<Seq<usize>>,
    Ghost(rk): Ghost<Seq<int>>,
    Ghost(nodes0): Ghost<Seq<ZLink>>,
) -> (r: (usize, usize, Ghost<Seq<usize>>, Ghost<Seq<int>>))
    requires
        s > 0,
        cur.len() > 0,
        cur[0] == list,
        distinct_nodes(old(nodes).len() as int, orig),
        runs_sorted(old(nodes)@, orig, cur, rk, s as int),
        chain_from(old(nodes)@, cur, 0),
        frame(nodes0, old(nodes)@, orig),
    ensures
        runs_sorted(final(nodes)@, orig, r.2@, r.3@, 2 * s),
        linked(final(nodes)@, r.2@),
        r.2@.len() == cur.len(),
        r.0 == r.2@[0],
        (r.1 <= 1) == (cur.len() <= 2 * s),
        frame(nodes0, final(nodes)@, orig),
        final(nodes).len() == old(nodes).len(),
{
    let ghost n = cur.len() as int;
    let ghost ss = s as int;
    let mut head: Option<usize> = None;
    let mut tail: Option<usize> = None;
    let mut p: Option<usize> = Some(list);
    let mut merges: usize = 0;
    let ghost mut pos: Seq<int> = Seq::empty();
    proof {
        assert(ranked(orig, cur, rk)) by {
            reveal(runs_sorted);
        }
        assert(merged_prefix(nodes@, cur, pos, head, tail)) by {
            reveal(merged_prefix);
        }
        assert(merged_runs(nodes@, cur, rk, pos, 2 * ss)) by {
            reveal(merged_runs);
        }
        lemma_ranked_distinct(orig, cur, rk, nodes.len() as int);
        lemma_distinct_len(orig, nodes.len() as int);
    }
    while p.is_some()
        invariant
            s > 0,
            ss == s,
            n == cur.len(),
            n > 0,
            0 <= pos.len() <= n,
            n <= nodes.len(),
            pos.len() == if merges * (2 * ss) <= n {
                merges * (2 * ss)
            } else {
                n
            },
            merges == 0 || (merges - 1) * (2 * ss) < n,
            p == if pos.len() < n {
                Some(cur[pos.len() as int])
            } else {
                None::<usize>
            },
            forall|i: int| 0 <= i < pos.len() ==> 0 <= #[trigger] pos[i] < pos.len(),
            forall|i: int, j: int| 0 <= i < j < pos.len() ==> pos[i] != pos[j],
            chain_from(nodes@, cur, pos.len() as int),
            merged_prefix(nodes@, cur, pos, head, tail),
            merged_runs(nodes@, cur, rk, pos, 2 * ss),
            distinct_nodes(nodes.len() as int, orig),
            runs_sorted(nodes@, orig, cur, rk, ss),
            frame(nodes0, nodes@, orig),
        decreases n - pos.len(),
    {
        proof {
            assert((pos.len() as int) % (2 * ss) == 0) by {
                if merges * (2 * ss) <= n {
                    vstd::arithmetic::div_mod::lemma_mod_multiples_basic(merges as int, 2 * ss);
                }
            }
            assert(merges < n) by (nonlinear_arith)
                requires
                    merges * (2 * ss) == pos.len(),
                    pos.len() < n,
                    ss > 0,
                    merges >= 0,
            ;
        }
        let (next, Ghost(pos2)) = merge_pair(
            nodes,
            &mut head,
            &mut tail,
            p.unwrap(),
            s,
            Ghost(orig),
            Ghost(cur),
            Ghost(rk),
            Ghost(pos),
            Ghost(nodes0),
        );
        proof {
            assert(merges * (2 * ss) + 2 * ss == (merges + 1) * (2 * ss)) by (nonlinear_arith);
        }
        merges = merges + 1;
        proof {
            pos = pos2;
        }
        p = next;
    }
    let ghost cur2 = Seq::new(n as nat, |i: int| cur[pos[i]]);
    let ghost rk2 = Seq::new(n as nat, |i: int| rk[pos[i]]);
    let ghost n1 = nodes@;
    proof {
        reveal(merged_prefix);
        reveal(merged_runs);
        reveal(runs_sorted);
        reveal(frame);
    }
    let t = tail.unwrap();
    proof {
        assert(pos.len() == n);
        assert(t == cur2[n - 1]);
        assert(orig.contains(cur[pos[n - 1]]));
    }
    set_next(nodes, t, None);
    proof {
        let n2 = nodes@;
        assert forall|k: int| 0 <= k < n2.len() && k != t as int implies #[trigger] n2[k] == n1[k] by {}
        assert(ranked(orig, cur2, rk2)) by {
            assert forall|i: int, j: int| 0 <= i < j < cur2.len() implies rk2[i] != rk2[j] by {
                assert(pos[i] != pos[j]);
                if pos[i] < pos[j] {
                    assert(rk[pos[i]] != rk[pos[j]]);
                } else {
                    assert(rk[pos[j]] != rk[pos[i]]);
                }
            }
        }
        assert forall|i: int| 0 <= i < cur2.len() implies (#[trigger] rk2[i]) / (2 * ss) == i / (2
            * ss) by {
            assert(rk[pos[i]] / ss == pos[i] / ss);
            lemma_double_run(rk[pos[i]], ss);
            lemma_double_run(pos[i], ss);
            assert(pos[i] / (2 * ss) == i / (2 * ss));
        }
        lemma_keys_kept(n1, n2);
        assert forall|i: int, j: int|
            0 <= i < j < cur2.len() && i / (2 * ss) == j / (2 * ss) implies #[trigger] key_lt(
            n2,
            cur2[i],
            rk2[i],
            cur2[j],
            rk2[j],
        ) by {
            assert(key_lt(n1, cur[pos[i]], rk[pos[i]], cur[pos[j]], rk[pos[j]]));
        }
        assert forall|i: int, j: int| 0 <= i < j < cur2.len() implies cur2[i] != cur2[j] by {
            assert(pos[i] != pos[j]);
        }
        assert forall|i: int| 0 <= i < cur2.len() - 1 implies n2[#[trigger] cur2[i] as int].next_z
            == Some(cur2[i + 1]) by {
            assert(pos[i] != pos[n - 1]);
            assert(cur[pos[i]] != cur[pos[n - 1]]);
        }
        assert forall|i: int| 0 < i < cur2.len() implies n2[#[trigger] cur2[i] as int].prev_z
            == Some(cur2[i - 1]) by {
            if i < n - 1 {
                assert(pos[i] != pos[n - 1]);
                assert(cur[pos[i]] != cur[pos[n - 1]]);
            }
        }
        if n > 1 {
            assert(pos[0] != pos[n - 1]);
            assert(cur[pos[0]] != cur[pos[n - 1]]);
        }
        assert(forward_chain(n2, cur2));
        assert(linked(n2, cur2));
        assert forall|k: int| 0 <= k < n2.len() && !orig.contains(k as usize) implies #[trigger] n2[k]
            == nodes0[k] by {
            assert(k != t as int);
        }
        if merges <= 1 {
            assert(n <= 2 * ss);
        } else {
            assert(n > 2 * ss) by (nonlinear_arith)
                requires
                    merges >= 2,
                    (merges - 1) * (2 * ss) < n,
                    ss > 0,
            ;
        }
    }
    (head.unwrap(), merges, Ghost(cur2), Ghost(rk2))
}

/// A list whose single run is sorted is sorted.
proof fn lemma_one_run(nodes: Seq<ZLink>, orig: Seq<usize>, cur: Seq<usize>, rk: Seq<int>, s: int)
    requires
        s > 0,
        runs_sorted(nodes, orig, cur, rk, s),
        cur.len() <= s,
    ensures
        stable_z_order(nodes, orig, cur),
{
    reveal(runs_sorted);
    assert forall|i: int, j: int| 0 <= i < j < cur.len() implies #[trigger] key_lt(
        nodes,
        cur[i],
        rk[i],
        cur[j],
        rk[j],
    ) by {
        lemma_run(i, s, 0);
        lemma_run(j, s, 0);
    }
    assert(ranked(orig, cur, rk));
}

/// Whether a forward list starts at `list`.
pub open spec fn has_list(nodes: Seq<ZLink>, list: usize) -> bool {
    exists|o: Seq<usize>| forward_chain(nodes, o) && o.len() > 0 && o[0] == list
}

/// The forward list that starts at `list`.
pub open spec fn list_from(nodes: Seq<ZLink>, list: usize) -> Seq<usize> {
    choose|o: Seq<usize>| forward_chain(nodes, o) && o.len() > 0 && o[0] == list
}

/// Sorts the list that starts at `list` by z-order key, keeping nodes of equal keys in
/// their order, and links it both ways; the other nodes, and every key, stay as they were.
#[verifier::rlimit(100)]
pub fn sort_linked(nodes: &mut Vec<ZLink>, list: usize)
    requires
        has_list(old(nodes)@, list),
    ensures
        exists|res: Seq<usize>|
            linked(final(nodes)@, res) && stable_z_order(
                final(nodes)@,
                list_from(old(nodes)@, list),
                res,
            ),
        frame(old(nodes)@, final(nodes)@, list_from(old(nodes)@, list)),
{
    let ghost nodes0 = nodes@;
    let ghost orig = list_from(nodes0, list);
    let ghost n = orig.len() as int;
    let ghost mut cur = orig;
    let ghost mut rk = Seq::new(n as nat, |i: int| i);
    let mut head = list;
    let mut in_size: usize = 1;
    proof {
        assert(forward_chain(nodes0, orig) && orig.len() > 0 && orig[0] == list);
        assert(runs_sorted(nodes@, orig, cur, rk, 1)) by {
            reveal(runs_sorted);
            assert(ranked(orig, cur, rk));
            assert forall|j: int| 0 <= j < cur.len() implies (#[trigger] rk[j]) / 1 == j / 1 by {}
            assert forall|i: int, j: int|
                0 <= i < j < cur.len() && i / 1 == j / 1 implies #[trigger] key_lt(
                nodes@,
                cur[i],
                rk[i],
                cur[j],
                rk[j],
            ) by {}
        }
        assert(frame(nodes0, nodes@, orig)) by {
            reveal(frame);
        }
        assert(chain_from(nodes@, cur, 0));
        lemma_distinct_len(orig, nodes.len() as int);
    }
    let mut done = false;
    let ghost mut fin: Seq<usize> = cur;
    while !done
        invariant
            n == orig.len(),
            n > 0,
            n <= nodes.len(),
            nodes.len() == nodes0.len(),
            0 < in_size <= n,
            cur.len() == n,
            cur[0] == head,
            distinct_nodes(nodes.len() as int, orig),
            !done ==> runs_sorted(nodes@, orig, cur, rk, in_size as int),
            !done ==> chain_from(nodes@, cur, 0),
            done ==> linked(nodes@, fin) && stable_z_order(nodes@, orig, fin),
            frame(nodes0, nodes@, orig),
        decreases n - in_size + (if done {
            0int
        } else {
            1int
        }),
    {
        let (h, merges, Ghost(cur2), Ghost(rk2)) = merge_pass(
            nodes,
            head,
            in_size,
            Ghost(orig),
            Ghost(cur),
            Ghost(rk),
            Ghost(nodes0),
        );
        if merges <= 1 {
            proof {
                lemma_one_run(nodes@, orig, cur2, rk2, 2 * in_size);
                fin = cur2;
            }
            done = true;
        } else {
            proof {
                cur = cur2;
                rk = rk2;
                assert(chain_from(nodes@, cur2, 0));
            }
            head = h;
            in_size = in_size * 2;
        }
    }
}


/// Two forward lists from the same node are the same list.
pub proof fn lemma_list_unique(nodes: Seq<ZLink>, o1: Seq<usize>, o2: Seq<usize>)
    requires
        forward_chain(nodes, o1),
        forward_chain(nodes, o2),
        o1.len() > 0,
        o2.len() > 0,
        o1[0] == o2[0],
    ensures
        o1 == o2,
{
    let m = if o1.len() < o2.len() {
        o1.len()
    } else {
        o2.len()
    };
    assert forall|i: int| 0 <= i < m implies o1[i] == o2[i] by {
        lemma_list_prefix(nodes, o1, o2, i);
    }
    if o1.len() < o2.len() {
        let l = o1.len() - 1;
        assert(o1[l] == o2[l]);
        assert(nodes[o2[l] as int].next_z == Some(o2[l + 1]));
    } else if o2.len() < o1.len() {
        let l = o2.len() - 1;
        assert(o1[l] == o2[l]);
        assert(nodes[o1[l] as int].next_z == Some(o1[l + 1]));
    }
    assert(o1 =~= o2);
}

proof fn lemma_list_prefix(nodes: Seq<ZLink>, o1: Seq<usize>, o2: Seq<usize>, i: int)
    requires
        forward_chain(nodes, o1),
        forward_chain(nodes, o2),
        0 <= i < o1.len(),
        i < o2.len(),
        o1[0] == o2[0],
    ensures
        o1[i] == o2[i],
    decreases i,
{
    if i > 0 {
        lemma_list_prefix(nodes, o1, o2, i - 1);
        assert(nodes[o1[i - 1] as int].next_z == Some(o1[i]));
        assert(nodes[o2[i - 1] as int].next_z == Some(o2[i]));
    }
}

/// Threads the z-ordered list through the nodes of a ring in ring order, `ring` listing
/// them from the ring's start, and sorts it by key; the keys are set beforehand.
pub fn index_curve(nodes: &mut Vec<ZLink>, ring: &[usize])
    requires
        ring.len() > 0,
        distinct_nodes(old(nodes).len() as int, ring@),
    ensures
        exists|res: Seq<usize>|
            linked(final(nodes)@, res) && stable_z_order(final(nodes)@, ring@, res),
        final(nodes).len() == old(nodes).len(),
        forall|k: int| 0 <= k < final(nodes).len() ==> (#[trigger] final(nodes)@[k]).z == old(nodes)@[k].z,
        forall|k: int|
            0 <= k < final(nodes).len() && !ring@.contains(k as usize) ==> (
                #[trigger] final(nodes)@[k]) == old(nodes)@[k],
{
    let n = ring.len();
    let mut i: usize = 0;
    while i < n
        invariant
            n == ring.len(),
            i <= n,
            nodes.len() == old(nodes).len(),
            distinct_nodes(nodes.len() as int, ring@),
            forall|k: int| 0 <= k < nodes.len() ==> (#[trigger] nodes@[k]).z == old(nodes)@[k].z,
            forall|k: int|
                0 <= k < nodes.len() && !ring@.contains(k as usize) ==> #[trigger] nodes@[k]
                    == old(nodes)@[k],
            forall|j: int|
                0 <= j < i ==> nodes@[#[trigger] ring@[j] as int].next_z == (if j + 1 < n {
                    Some(ring@[j + 1])
                } else {
                    None::<usize>
                }),
        decreases n - i,
    {
        let v = if i + 1 < n {
            Some(ring[i + 1])
        } else {
            None
        };
        let ghost before = nodes@;
        set_next(nodes, ring[i], v);
        proof {
            assert(ring@.contains(ring@[i as int]));
            assert forall|j: int| 0 <= j < i implies nodes@[#[trigger] ring@[j] as int].next_z == (
            if j + 1 < n {
                Some(ring@[j + 1])
            } else {
                None::<usize>
            }) by {
                assert(ring@[j] != ring@[i as int]);
            }
        }
        i = i + 1;
    }
    proof {
        assert(forward_chain(nodes@, ring@)) by {
            assert forall|j: int| 0 <= j < ring@.len() - 1 implies nodes@[#[trigger] ring@[j] as int].next_z
                == Some(ring@[j + 1]) by {}
            assert(nodes@[ring@.last() as int].next_z is None) by {
                assert(ring@.last() == ring@[n - 1]);
            }
        }
        assert(has_list(nodes@, ring[0]));
        lemma_list_unique(nodes@, ring@, list_from(nodes@, ring[0]));
    }
    let ghost linked_nodes = nodes@;
    sort_linked(nodes, ring[0]);
    proof {
        reveal(frame);
        assert(list_from(linked_nodes, ring@[0]) == ring@);
    }
}

} // verus!
