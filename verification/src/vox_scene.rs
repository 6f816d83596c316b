//! The `.vox` scene graph walk that finds the first model shown under the root.
use crate::vox::{NodeModel, VoxNode, bytes_view, nodes_view};
use std::collections::HashMap;
use vstd::prelude::*;

verus! {

broadcast use vstd::std_specs::hash::group_hash_axioms;

/// Node `id` is a transform without translation or rotation whose child exists and is not a
/// shape: the root walk passes through it to the child.
pub open spec fn passes_through(m: Map<u32, NodeModel>, id: u32) -> bool {
    &&& m.contains_key(id)
    &&& m[id] matches NodeModel::Transform { child, translation: None, rotation: None }
    &&& m.contains_key(m[id]->child)
    &&& !(m[m[id]->child] is Shape)
}

/// The node reached from `id` after `n` passes.
pub open spec fn walk(m: Map<u32, NodeModel>, id: u32, n: nat) -> u32
    decreases n,
{
    if n == 0 {
        id
    } else {
        walk(m, m[id]->child, (n - 1) as nat)
    }
}

/// The walk from node 0 stops after `k` passes.
pub open spec fn stops_at(m: Map<u32, NodeModel>, k: nat) -> bool {
    &&& forall|j: nat| j < k ==> passes_through(m, #[trigger] walk(m, 0, j))
    &&& !passes_through(m, walk(m, 0, k))
}

/// The model and translation shown by the group `id`: its first child must be a transform
/// without rotation over a shape of exactly one model.
pub open spec fn first_shape(m: Map<u32, NodeModel>, id: u32) -> Option<(u32, Option<Seq<u8>>)> {
    if !(m.contains_key(id) && m[id] is Group) {
        None
    } else {
        let children = m[id]->Group_0;
        if children.len() == 0 || !m.contains_key(children[0]) {
            None
        } else {
            match m[children[0]] {
                NodeModel::Transform { child, translation, rotation: None } => {
                    if m.contains_key(child) && m[child] is Shape && m[child]->Shape_0.len() == 1 {
                        Some((m[child]->Shape_0[0], translation))
                    } else {
                        None
                    }
                },
                _ => None,
            }
        }
    }
}

/// The exec form of an optional shape result.
pub open spec fn shape_view(r: Option<(u32, Option<Vec<u8>>)>) -> Option<(u32, Option<Seq<u8>>)> {
    match r {
        Some((id, t)) => Some((id, bytes_view(t))),
        None => None,
    }
}

fn copy_vec(v: &Vec<u8>) -> (c: Vec<u8>)
    ensures
        c@ == v@,
{
    let mut c: Vec<u8> = Vec::new();
    let mut k: usize = 0;
    while k < v.len()
        invariant
            k <= v@.len(),
            c@ == v@.subrange(0, k as int),
        decreases v@.len() - k,
    {
        c.push(v[k]);
        k = k + 1;
        assert(c@ =~= v@.subrange(0, k as int));
    }
    assert(c@ =~= v@);
    c
}

/// The scene's first child as the loader builds it: from node 0 through plain transforms to
/// a group, whose first child must be an unrotated transform over a single-model shape; the
/// model id and that transform's raw `_t` text. `None` where a node is missing or the graph
/// has another shape.
pub fn first_vox_mesh(nodes: &HashMap<u32, VoxNode>) -> (r: Option<(u32, Option<Vec<u8>>)>)
    requires
        exists|k: nat| stops_at(nodes_view(nodes@), k),
    ensures
        exists|k: nat|
            stops_at(nodes_view(nodes@), k) && shape_view(r) == first_shape(
                nodes_view(nodes@),
                walk(nodes_view(nodes@), 0, k),
            ),
{
    let ghost m = nodes_view(nodes@);
    let ghost k = choose|k: nat| stops_at(m, k);
    let mut id: u32 = 0;
    let ghost mut n: nat = 0;
    loop
        invariant
            m == nodes_view(nodes@),
            stops_at(m, k),
            n <= k,
            id == walk(m, 0, n),
        ensures
            m == nodes_view(nodes@),
            stops_at(m, k),
            id == walk(m, 0, k),
        decreases k - n,
    {
        let node = match nodes.get(&id) {
            Some(node) => node,
            None => {
                assert(!passes_through(m, id));
                assert(n == k) by {
                    if n < k {
                        assert(passes_through(m, walk(m, 0, n)));
                    }
                }
                assert(stops_at(m, k) && shape_view(None) == first_shape(m, walk(m, 0, k)));
                return None;
            },
        };
        assert(m[id] == node@);
        let next = match node {
            VoxNode::Transform { child, translation: None, rotation: None } => {
                let target = match nodes.get(child) {
                    Some(t) => t,
                    None => {
                        assert(!passes_through(m, id));
                        assert(n == k) by {
                            if n < k {
                                assert(passes_through(m, walk(m, 0, n)));
                            }
                        }
                        assert(stops_at(m, k) && shape_view(None) == first_shape(m, walk(m, 0, k)));
                return None;
                    },
                };
                assert(m[*child] == target@);
                match target {
                    VoxNode::Shape(_) => None,
                    _ => Some(*child),
                }
            },
            _ => None,
        };
        match next {
            Some(c) => {
                assert(passes_through(m, id));
                assert(n < k) by {
                    if n == k {
                        assert(!passes_through(m, walk(m, 0, n)));
                    }
                }
                proof {
                    lemma_walk_step(m, 0, n);
                    assert(walk(m, id, 1) == walk(m, m[id]->child, 0));
                    n = n + 1;
                }
                id = c;
            },
            None => {
                assert(!passes_through(m, id));
                assert(n == k) by {
                    if n < k {
                        assert(passes_through(m, walk(m, 0, n)));
                    }
                }
                break ;
            },
        }
    }
    let r = finish_shape(nodes, id);
    assert(stops_at(m, k) && shape_view(r) == first_shape(m, walk(m, 0, k)));
    r
}

/// The shape the group `id` shows, as `first_shape` says.
fn finish_shape(nodes: &HashMap<u32, VoxNode>, id: u32) -> (r: Option<(u32, Option<Vec<u8>>)>)
    ensures
        shape_view(r) == first_shape(nodes_view(nodes@), id),
{
    let ghost m = nodes_view(nodes@);
    let group = match nodes.get(&id) {
        Some(g) => g,
        None => return None,
    };
    assert(m[id] == group@);
    let children = match group {
        VoxNode::Group(c) => c,
        _ => return None,
    };
    if children.len() == 0 {
        return None;
    }
    let first = match nodes.get(&children[0]) {
        Some(f) => f,
        None => return None,
    };
    assert(m[children@[0]] == first@);
    match first {
        VoxNode::Transform { child, translation, rotation: None } => {
            let shape = match nodes.get(child) {
                Some(s) => s,
                None => return None,
            };
            assert(m[*child] == shape@);
            match shape {
                VoxNode::Shape(models) => {
                    if models.len() == 1 {
                        let t = match translation {
                            Some(v) => Some(copy_vec(v)),
                            None => None,
                        };
                        Some((models[0], t))
                    } else {
                        None
                    }
                },
                _ => None,
            }
        },
        _ => None,
    }
}

/// One more pass continues the walk from the node reached so far.
pub proof fn lemma_walk_step(m: Map<u32, NodeModel>, id: u32, n: nat)
    ensures
        walk(m, id, n + 1) == walk(m, walk(m, id, n), 1),
    decreases n,
{
    if n > 0 {
        lemma_walk_step(m, m[id]->child, (n - 1) as nat);
    }
}


/// The child the root walk passes on to from `id`, when it passes through `id`.
fn pass_child(nodes: &HashMap<u32, VoxNode>, id: u32) -> (r: Option<u32>)
    ensures
        r is Some <==> passes_through(nodes_view(nodes@), id),
        r matches Some(c) ==> c == nodes_view(nodes@)[id]->child,
{
    let ghost m = nodes_view(nodes@);
    let node = match nodes.get(&id) {
        Some(node) => node,
        None => return None,
    };
    assert(m[id] == node@);
    match node {
        VoxNode::Transform { child, translation: None, rotation: None } => {
            let target = match nodes.get(child) {
                Some(t) => t,
                None => return None,
            };
            assert(m[*child] == target@);
            match target {
                VoxNode::Shape(_) => None,
                _ => Some(*child),
            }
        },
        _ => None,
    }
}

/// Two passes that reach the same node go on alike.
proof fn lemma_walk_repeats(m: Map<u32, NodeModel>, a: nat, b: nat, t: nat)
    requires
        walk(m, 0, a) == walk(m, 0, b),
    ensures
        walk(m, 0, a + t) == walk(m, 0, b + t),
    decreases t,
{
    if t > 0 {
        lemma_walk_repeats(m, a, b, (t - 1) as nat);
        lemma_walk_step(m, 0, (a + t - 1) as nat);
        lemma_walk_step(m, 0, (b + t - 1) as nat);
    }
}

/// A walk that repeats a node before it stops never stops.
proof fn lemma_walk_cycles(m: Map<u32, NodeModel>, a: nat, b: nat, k: nat)
    requires
        a < b,
        walk(m, 0, a) == walk(m, 0, b),
        forall|j: nat| j <= b ==> passes_through(m, #[trigger] walk(m, 0, j)),
    ensures
        passes_through(m, walk(m, 0, k)),
    decreases k,
{
    if k > b {
        let p = (b - a) as nat;
        lemma_walk_repeats(m, a, b, (k - b) as nat);
        assert(walk(m, 0, (k - p) as nat) == walk(m, 0, k));
        lemma_walk_cycles(m, a, b, (k - p) as nat);
    }
}

/// Whether the walk from node 0 stops, so that `first_vox_mesh` returns: it does unless it
/// comes back to a node it passed through.
pub fn vox_walk_stops(nodes: &HashMap<u32, VoxNode>) -> (b: bool)
    ensures
        b <==> exists|k: nat| stops_at(nodes_view(nodes@), k),
{
    let ghost m = nodes_view(nodes@);
    let n = nodes.len();
    proof {
        assert(m.dom() =~= nodes@.dom());
        vstd::std_specs::hash::axiom_hashmap_view_finite_dom(*nodes);
    }
    let mut id: u32 = 0;
    let mut j: usize = 0;
    loop
        invariant
            m == nodes_view(nodes@),
            n == m.dom().len(),
            m.dom().finite(),
            j <= n,
            id == walk(m, 0, j as nat),
            forall|jj: nat| jj < j ==> passes_through(m, #[trigger] walk(m, 0, jj)),
        decreases n - j,
    {
        match pass_child(nodes, id) {
            None => {
                assert(stops_at(m, j as nat));
                return true;
            },
            Some(c) => {
                proof {
                    lemma_walk_step(m, 0, j as nat);
                    assert(walk(m, id, 1) == walk(m, m[id]->child, 0));
                }
                if j == n {
                    proof {
                        let ghost s = Seq::new((n + 1) as nat, |i: int| walk(m, 0, i as nat));
                        assert forall|i: int| 0 <= i < s.len() implies m.dom().contains(
                            #[trigger] s[i],
                        ) by {
                            assert(passes_through(m, walk(m, 0, i as nat)));
                        }
                        if s.no_duplicates() {
                            s.unique_seq_to_set();
                            assert(s.to_set().subset_of(m.dom()));
                            vstd::set_lib::lemma_len_subset(s.to_set(), m.dom());
                        }
                        let (a, b) = choose|a: int, b: int|
                            0 <= a < s.len() && 0 <= b < s.len() && a != b && s[a] == s[b];
                        let (lo, hi) = if a < b {
                            (a as nat, b as nat)
                        } else {
                            (b as nat, a as nat)
                        };
                        assert(walk(m, 0, lo) == walk(m, 0, hi)) by {
                            assert(s[lo as int] == walk(m, 0, lo));
                            assert(s[hi as int] == walk(m, 0, hi));
                        }
                        assert forall|kk: nat| !stops_at(m, kk) by {
                            lemma_walk_cycles(m, lo, hi, kk);
                        }
                    }
                    return false;
                }
                id = c;
                j = j + 1;
            },
        }
    }
}

} // verus!
