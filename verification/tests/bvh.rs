use raytracer::bvh::{identity_indices, BVHNode, Bvh, INTERIOR_MARK};
use raytracer::scene::InstanceId;

fn cover_count(bvh: &Bvh<u32>, node: usize, k: usize) -> usize {
    let nd = bvh.node(node);
    if nd.is_leaf() {
        if nd.indices().contains(&k) {
            1
        } else {
            0
        }
    } else {
        let (a, b) = nd.left_right_idx();
        cover_count(bvh, a, k) + cover_count(bvh, b, k)
    }
}

#[test]
fn identity_indices_counts_up() {
    assert_eq!(identity_indices(0), Vec::<u32>::new());
    assert_eq!(identity_indices(4), vec![0, 1, 2, 3]);
}

#[test]
fn node_accessors() {
    let leaf = BVHNode { left: 2, right: 5 };
    assert!(leaf.is_leaf());
    assert_eq!(leaf.indices(), 2..5);
    let interior = BVHNode { left: 3, right: INTERIOR_MARK };
    assert!(!interior.is_leaf());
    assert_eq!(interior.left_right_idx(), (3, 4));
}

#[test]
fn new_hierarchy_is_one_leaf() {
    let bvh = Bvh::new(identity_indices(5));
    assert_eq!(bvh.num_nodes(), 1);
    let root = bvh.node(0);
    assert!(root.is_leaf());
    assert_eq!(root.indices(), 0..5);
    assert_eq!(bvh.items(), &[0, 1, 2, 3, 4]);
}

#[test]
fn partition_and_split_root() {
    let mut bvh = Bvh::new(vec![4u32, 0, 3, 1, 2]);
    let right_start = bvh.partition_items(0, |&i| i < 2);
    assert_eq!(right_start, 2);
    let mut left: Vec<u32> = bvh.items()[..2].to_vec();
    left.sort();
    assert_eq!(left, vec![0, 1]);
    let mut right: Vec<u32> = bvh.items()[2..].to_vec();
    right.sort();
    assert_eq!(right, vec![2, 3, 4]);

    let left_child = bvh.split_node(0, right_start);
    assert_eq!(left_child, 1);
    assert_eq!(bvh.num_nodes(), 3);
    assert!(!bvh.node(0).is_leaf());
    assert_eq!(bvh.node(0).left_right_idx(), (1, 2));
    assert_eq!(bvh.node(1).indices(), 0..2);
    assert_eq!(bvh.node(2).indices(), 2..5);
}

#[test]
fn split_child_keeps_every_item_in_one_leaf() {
    let mut bvh = Bvh::new(identity_indices(6));
    let r = bvh.partition_items(0, |&i| i % 2 == 0);
    let c = bvh.split_node(0, r);
    let r2 = bvh.partition_items(c + 1, |&i| i == 5);
    let c2 = bvh.split_node(c + 1, r2);
    assert_eq!(c2, 3);
    assert_eq!(bvh.num_nodes(), 5);
    for k in 0..6 {
        assert_eq!(cover_count(&bvh, 0, k), 1);
    }
    assert_eq!(cover_count(&bvh, 0, 6), 0);
    let mut items = bvh.items().to_vec();
    items.sort();
    assert_eq!(items, vec![0, 1, 2, 3, 4, 5]);
}

#[test]
fn partition_items_can_leave_left_group_empty() {
    let mut bvh = Bvh::new(vec![3u32, 4]);
    let r = bvh.partition_items(0, |&i| i > 10);
    assert_eq!(r, 0);
    assert_eq!(bvh.items(), &[3, 4]);
    assert_eq!(bvh.num_nodes(), 1);
}

#[test]
fn full_split_stays_within_twice_the_items() {
    let n = 8u32;
    let mut bvh = Bvh::new(identity_indices(n as usize));
    let mut stack = vec![0usize];
    while let Some(node) = stack.pop() {
        let range = bvh.node(node).indices();
        if range.len() < 2 {
            continue;
        }
        let mid = ((range.start + range.end) / 2) as u32;
        let r = bvh.partition_items(node, |&i| i < mid);
        assert_eq!(r, mid);
        let c = bvh.split_node(node, r);
        stack.push(c);
        stack.push(c + 1);
    }
    assert_eq!(bvh.num_nodes(), (2 * n - 1) as usize);
    for k in 0..n as usize {
        assert_eq!(cover_count(&bvh, 0, k), 1);
    }
    let mut leaves = 0;
    for i in 0..bvh.num_nodes() {
        let node = bvh.node(i);
        if node.is_leaf() {
            assert_eq!(node.indices().len(), 1);
            leaves += 1;
        }
    }
    assert_eq!(leaves, n as usize);
}

#[test]
fn hierarchy_over_instance_ids() {
    let ids = vec![InstanceId::Mesh(0), InstanceId::Mesh(1), InstanceId::Mesh(2)];
    let mut bvh = Bvh::new(ids);
    let r = bvh.partition_items(0, |id| matches!(id, InstanceId::Mesh(2)));
    assert_eq!(r, 1);
    assert!(matches!(bvh.items()[0], InstanceId::Mesh(2)));
}
