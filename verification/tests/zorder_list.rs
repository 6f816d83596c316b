use gallery::zlist::{index_curve, sort_linked, ZLink};

fn chain(zs: &[i32]) -> Vec<ZLink> {
    let n = zs.len();
    (0..n)
        .map(|i| ZLink {
            z: zs[i],
            prev_z: if i > 0 { Some(i - 1) } else { None },
            next_z: if i + 1 < n { Some(i + 1) } else { None },
        })
        .collect()
}

fn walk(nodes: &[ZLink], members: &[usize]) -> Vec<usize> {
    let head = *members.iter().find(|&&i| nodes[i].prev_z.is_none()).unwrap();
    let mut out = vec![head];
    let mut p = head;
    while let Some(n) = nodes[p].next_z {
        assert_eq!(nodes[n].prev_z, Some(p));
        out.push(n);
        p = n;
    }
    out
}

#[test]
fn sort_linked_is_stable_by_key() {
    let mut nodes = chain(&[5, 3, 5, 1, 3, 0, 9]);
    sort_linked(&mut nodes, 0);
    assert_eq!(walk(&nodes, &[0, 1, 2, 3, 4, 5, 6]), vec![5, 3, 1, 4, 0, 2, 6]);
}

#[test]
fn sort_linked_single_and_sorted_lists() {
    let mut one = chain(&[7]);
    sort_linked(&mut one, 0);
    assert_eq!(one[0], ZLink { z: 7, prev_z: None, next_z: None });
    let mut sorted = chain(&[-4, -4, 0, 2, 2, 8, 9, 9, 10]);
    sort_linked(&mut sorted, 0);
    assert_eq!(walk(&sorted, &[0, 1, 2, 3, 4, 5, 6, 7, 8]), (0..9).collect::<Vec<_>>());
    let mut reversed = chain(&[9, 8, 7, 6, 5, 4, 3, 2, 1, 0, -1]);
    sort_linked(&mut reversed, 0);
    assert_eq!(walk(&reversed, &(0..11).collect::<Vec<_>>()), (0..11).rev().collect::<Vec<_>>());
}

#[test]
fn sort_linked_leaves_other_nodes_alone() {
    // Nodes 1, 3 and 4 form the list 3 -> 1 -> 4; nodes 0 and 2 are outside it.
    let other0 = ZLink { z: 100, prev_z: Some(2), next_z: Some(2) };
    let other2 = ZLink { z: -100, prev_z: Some(0), next_z: Some(0) };
    let mut nodes = vec![
        other0,
        ZLink { z: 2, prev_z: Some(3), next_z: Some(4) },
        other2,
        ZLink { z: 2, prev_z: None, next_z: Some(1) },
        ZLink { z: 1, prev_z: Some(1), next_z: None },
    ];
    sort_linked(&mut nodes, 3);
    assert_eq!(walk(&nodes, &[1, 3, 4]), vec![4, 3, 1]);
    assert_eq!(nodes[0], other0);
    assert_eq!(nodes[2], other2);
}

#[test]
fn index_curve_links_ring_then_sorts() {
    // A ring 4 -> 1 -> 3 -> 0 in an arena of six nodes; nodes 2 and 5 are not on it.
    let blank = |z: i32| ZLink { z, prev_z: None, next_z: None };
    let mut nodes = vec![blank(6), blank(2), blank(-8), blank(2), blank(7), blank(0)];
    let outside = nodes[2];
    index_curve(&mut nodes, &[4, 1, 3, 0]);
    assert_eq!(walk(&nodes, &[4, 1, 3, 0]), vec![1, 3, 0, 4]);
    assert_eq!(nodes[2], outside);
    assert_eq!(nodes[5], blank(0));
    assert_eq!(nodes.iter().map(|n| n.z).collect::<Vec<_>>(), vec![6, 2, -8, 2, 7, 0]);
}
