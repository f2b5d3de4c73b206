use pathtracer::scene::bvh::{partition_triangles, BvhBuilder, BvhNodeLinks, BVH};

fn links(first: u32, count: u32) -> BvhNodeLinks {
    BvhNodeLinks { left_child_or_first_triangle: first, num_triangles: count }
}

/// Leaves reachable from the root, depth first.
fn leaves(bvh: &BVH) -> Vec<usize> {
    let mut out = vec![];
    let mut stack = vec![0usize];
    while let Some(k) = stack.pop() {
        let n = bvh.nodes[k];
        if n.num_triangles > 0 {
            out.push(k);
        } else {
            let c = n.left_child_or_first_triangle as usize;
            stack.push(c + 1);
            stack.push(c);
        }
    }
    out
}

#[test]
fn new_hierarchy_reserves_nodes_and_lists_triangles_in_order() {
    let bvh = BVH::new(5);
    assert_eq!(bvh.triangle_indices, vec![0, 1, 2, 3, 4]);
    assert_eq!(bvh.nodes.len(), 9);
    assert!(bvh.nodes.iter().all(|n| *n == links(0, 0)));
}

#[test]
fn begin_build_makes_root_a_leaf_of_all_triangles() {
    let mut bvh = BVH::new(4);
    bvh.begin_build();
    assert_eq!(bvh.nodes[0], links(0, 4));
}

#[test]
fn split_partitions_and_allocates_children() {
    let mut bvh = BVH::new(5);
    bvh.begin_build();
    let goes_left = vec![true, false, true, false, true];
    let children = bvh.split_node(0, &goes_left);
    assert_eq!(children, Some((1, 2)));
    assert_eq!(bvh.triangle_indices, vec![0, 4, 2, 3, 1]);
    assert_eq!(bvh.nodes[0], links(1, 0));
    assert_eq!(bvh.nodes[1], links(0, 3));
    assert_eq!(bvh.nodes[2], links(3, 2));
}

#[test]
fn small_leaf_and_interior_node_are_not_split() {
    let mut bvh = BVH::new(5);
    bvh.begin_build();
    let goes_left = vec![true, false, true, false, true];
    bvh.split_node(0, &goes_left);
    let before = bvh.nodes.clone();
    // Node 2 holds two triangles, node 0 is interior now, node 5 is unused.
    assert_eq!(bvh.split_node(2, &goes_left), None);
    assert_eq!(bvh.split_node(0, &goes_left), None);
    assert_eq!(bvh.split_node(5, &goes_left), None);
    assert_eq!(bvh.nodes, before);
}

#[test]
fn one_sided_split_keeps_the_leaf() {
    let mut bvh = BVH::new(4);
    bvh.begin_build();
    assert_eq!(bvh.split_node(0, &vec![true; 4]), None);
    assert_eq!(bvh.split_node(0, &vec![false; 4]), None);
    assert_eq!(bvh.nodes[0], links(0, 4));
    let mut sorted = bvh.triangle_indices.clone();
    sorted.sort();
    assert_eq!(sorted, vec![0, 1, 2, 3]);
}

#[test]
fn partition_all_right_from_position_zero() {
    let mut indices = vec![0u32, 1, 2];
    let split = partition_triangles(&mut indices, 0, 3, &vec![false, false, false]);
    assert_eq!(split, 0);
    let mut sorted = indices.clone();
    sorted.sort();
    assert_eq!(sorted, vec![0, 1, 2]);
}

#[test]
fn partition_leaves_outside_alone() {
    let mut indices = vec![5u32, 3, 0, 4, 1, 2];
    let goes_left = vec![false, true, false, true, false, true];
    let split = partition_triangles(&mut indices, 1, 4, &goes_left);
    assert_eq!(indices[0], 5);
    assert_eq!(indices[5], 2);
    assert_eq!(split, 3);
    assert!(indices[1..3].iter().all(|&t| goes_left[t as usize]));
    assert!(indices[3..5].iter().all(|&t| !goes_left[t as usize]));
    let mut middle = indices[1..5].to_vec();
    middle.sort();
    assert_eq!(middle, vec![0, 1, 3, 4]);
}

#[test]
fn full_build_puts_each_triangle_in_one_leaf() {
    let n = 37usize;
    let mut bvh = BVH::new(n);
    bvh.begin_build();
    // Split by bits of the triangle number, one bit per level.
    let mut work = vec![(0usize, 0u32)];
    while let Some((node, bit)) = work.pop() {
        let goes_left: Vec<bool> = (0..n as u32).map(|t| (t >> bit) & 1 == 0).collect();
        if let Some((l, r)) = bvh.split_node(node, &goes_left) {
            work.push((l, bit + 1));
            work.push((r, bit + 1));
        } else if bit < 6 && bvh.nodes[node].num_triangles > 2 {
            work.push((node, bit + 1));
        }
    }
    let mut seen = vec![0; n];
    for k in leaves(&bvh) {
        let leaf = bvh.nodes[k];
        assert!(leaf.num_triangles >= 1);
        let first = leaf.left_child_or_first_triangle as usize;
        for p in first..first + leaf.num_triangles as usize {
            seen[bvh.triangle_indices[p] as usize] += 1;
        }
    }
    assert!(seen.iter().all(|&c| c == 1));
    let used = bvh.nodes.iter().filter(|l| **l != links(0, 0)).count();
    assert!(used <= 2 * n - 1);
}

#[test]
fn split_keeps_the_scan_order_within_each_side() {
    // Triangles 0 and 2 go left, triangle 1 goes right: the scan exchanges
    // positions 1 and 2 and stops, giving [0, 2, 1].
    let mut bvh = BVH::new(3);
    bvh.begin_build();
    let children = bvh.split_node(0, &vec![true, false, true]);
    assert_eq!(children, Some((1, 2)));
    assert_eq!(bvh.triangle_indices, vec![0, 2, 1]);
    assert_eq!(bvh.nodes[0], links(1, 0));
    assert_eq!(bvh.nodes[1], links(0, 2));
    assert_eq!(bvh.nodes[2], links(2, 1));
}

#[test]
fn partition_order_follows_the_scan() {
    let mut indices = vec![0u32, 1, 2, 3, 4, 5];
    let goes_left = vec![false, true, false, true, true, false];
    let split = partition_triangles(&mut indices, 0, 6, &goes_left);
    // i=0: 0 right, swap with 5 -> [5,1,2,3,4,0], j=4; i=0: 5 right, swap with 4 ->
    // [4,1,2,3,5,0], j=3; 4 left, 1 left; i=2: 2 right, swap with 3 -> [4,1,3,2,5,0], j=2;
    // 3 left; i=3 > j.
    assert_eq!(indices, vec![4, 1, 3, 2, 5, 0]);
    assert_eq!(split, 3);
}

#[test]
fn every_used_node_is_reached_from_the_root() {
    let n = 20usize;
    let mut bvh = BVH::new(n);
    bvh.begin_build();
    let mut work = vec![(0usize, 0u32)];
    while let Some((node, bit)) = work.pop() {
        let goes_left: Vec<bool> = (0..n as u32).map(|t| (t >> bit) & 1 == 0).collect();
        if let Some((l, r)) = bvh.split_node(node, &goes_left) {
            work.push((l, bit + 1));
            work.push((r, bit + 1));
        }
    }
    let mut reached = vec![false; bvh.nodes.len()];
    let mut stack = vec![0usize];
    while let Some(k) = stack.pop() {
        assert!(!reached[k], "node {} has two parents", k);
        reached[k] = true;
        let node = bvh.nodes[k];
        if node.num_triangles == 0 {
            let c = node.left_child_or_first_triangle as usize;
            assert!(c > k);
            stack.push(c);
            stack.push(c + 1);
        }
    }
    let used = reached.iter().filter(|r| **r).count();
    assert!(bvh.nodes[used..].iter().all(|l| *l == links(0, 0)));
}

#[test]
fn begin_build_may_start_over_before_a_split() {
    let mut bvh = BVH::new(4);
    bvh.begin_build();
    bvh.begin_build();
    assert_eq!(bvh.nodes[0], links(0, 4));
}

#[test]
fn builder_visits_depth_first_left_before_right() {
    // Triangles 0..8; split by bit 2, then bit 1, then bit 0 of the number.
    let n = 8usize;
    let mut builder = BvhBuilder::start(BVH::new(n));
    let mut order = vec![];
    while let Some(node) = builder.current() {
        order.push(node);
        let depth = {
            let mut d = 0u32;
            let mut k = node;
            // Node k was made at depth d: count parents back to the root.
            while k != 0 {
                let parent = builder.bvh().nodes.iter().position(|l| {
                    l.num_triangles == 0 && (l.left_child_or_first_triangle as usize == k || l.left_child_or_first_triangle as usize + 1 == k)
                }).unwrap();
                k = parent;
                d += 1;
            }
            d
        };
        let bit = 2u32.saturating_sub(depth);
        let goes_left: Vec<bool> = (0..n as u32).map(|t| (t >> bit) & 1 == 0).collect();
        builder.step(&goes_left);
    }
    // Root, then its left subtree before its right subtree.
    assert_eq!(order, vec![0, 1, 3, 4, 2, 5, 6]);
    let bvh = builder.finish();
    assert_eq!(bvh.triangle_indices, vec![0, 1, 3, 2, 5, 4, 7, 6]);
    assert_eq!(bvh.nodes[3], links(0, 2));
    assert_eq!(bvh.nodes[4], links(2, 2));
    assert_eq!(bvh.nodes[5], links(4, 2));
    assert_eq!(bvh.nodes[6], links(6, 2));
}

#[test]
fn builder_leaves_are_small_or_one_sided() {
    let n = 10usize;
    let mut builder = BvhBuilder::start(BVH::new(n));
    // Every triangle goes left: the root cannot be split and stays a leaf.
    let goes_left = vec![true; n];
    assert_eq!(builder.current(), Some(0));
    assert_eq!(builder.step(&goes_left), None);
    assert_eq!(builder.current(), None);
    let bvh = builder.finish();
    assert_eq!(bvh.nodes[0], links(0, 10));
}
