use rtree::geometries::{BoundingRectangle, RtreeGeometry};
use rtree::nodes::{ChildKind, ChildrenType, RtreeNode, RtreeObject};
use rtree::split::RtreeSplit;
use rtree::utils::{find_least_enlargement, generate_id};

fn point_entry(x: i64, y: i64) -> RtreeGeometry {
    RtreeGeometry::new(vec![(x, y)])
}

fn leaf_count(node: &RtreeNode) -> usize {
    match &node.children {
        ChildrenType::Leafs(es) => es.len(),
        ChildrenType::InnerNodes(_) => panic!("expected a leaf node"),
    }
}

fn contains(outer: &BoundingRectangle, inner: &BoundingRectangle) -> bool {
    outer.left.0 <= inner.left.0
        && outer.left.1 <= inner.left.1
        && inner.right.0 <= outer.right.0
        && inner.right.1 <= outer.right.1
}

#[test]
fn test_insert_into_leaf_grows_mbr() {
    let mut node = RtreeNode::new(BoundingRectangle::new((1, 1), (1, 1)), 4, ChildKind::Leafs);
    node.insert(point_entry(1, 1));
    node.insert(point_entry(3, 2));
    assert_eq!(node.mbr.left, (1, 1));
    assert_eq!(node.mbr.right, (3, 2));
    assert_eq!(leaf_count(&node), 2);
}

#[test]
fn test_fifth_insert_splits_root() {
    let mut node = RtreeNode::new(BoundingRectangle::new((1, 1), (1, 1)), 4, ChildKind::Leafs);
    for i in 1..=5 {
        node.insert(point_entry(i, i));
    }
    match &node.children {
        ChildrenType::InnerNodes(groups) => {
            assert_eq!(groups.len(), 2);
            let mut total = 0;
            for group in groups {
                let n = leaf_count(group);
                assert!(n >= 2);
                total += n;
                assert!(contains(&node.mbr, &group.mbr));
            }
            assert_eq!(total, 5);
        }
        ChildrenType::Leafs(_) => panic!("the fifth insertion must split the root"),
    }
    assert!(contains(
        &node.mbr,
        &BoundingRectangle::new((1, 1), (5, 5))
    ));
    assert!(contains(
        &BoundingRectangle::new((1, 1), (5, 5)),
        &node.mbr
    ));
}

#[test]
fn test_split_conserves_children() {
    let entries: Vec<RtreeGeometry> = vec![
        point_entry(0, 0),
        point_entry(10, 10),
        point_entry(1, 0),
        point_entry(9, 10),
        point_entry(5, 5),
    ];
    let mbr = BoundingRectangle::new((0, 0), (10, 10));
    let mut node = RtreeNode {
        id: generate_id(),
        children: ChildrenType::Leafs(entries),
        mbr,
        max_children: 4,
    };
    let sibling = node.split();
    let n_a = leaf_count(&node);
    let n_b = leaf_count(&sibling);
    assert_eq!(n_a + n_b, 5);
    assert!(n_a >= 2);
    assert!(n_b >= 2);
    match (&node.children, &sibling.children) {
        (ChildrenType::Leafs(ga), ChildrenType::Leafs(gb)) => {
            for e in ga {
                assert!(contains(&node.mbr, &e.mbr));
            }
            for e in gb {
                assert!(contains(&sibling.mbr, &e.mbr));
            }
            for e in ga {
                assert!(gb.iter().all(|f| f.id != e.id));
            }
        }
        _ => panic!("split of a leaf node must yield leaf nodes"),
    }
    assert!(contains(&mbr, &node.mbr));
    assert!(contains(&mbr, &sibling.mbr));
}

#[test]
fn test_insert_descends_least_enlargement() {
    let left_leaf = RtreeNode {
        id: generate_id(),
        children: ChildrenType::Leafs(vec![point_entry(0, 0), point_entry(2, 2)]),
        mbr: BoundingRectangle::new((0, 0), (2, 2)),
        max_children: 4,
    };
    let right_leaf = RtreeNode {
        id: generate_id(),
        children: ChildrenType::Leafs(vec![point_entry(10, 0), point_entry(12, 2)]),
        mbr: BoundingRectangle::new((10, 0), (12, 2)),
        max_children: 4,
    };
    let mut root = RtreeNode {
        id: generate_id(),
        children: ChildrenType::InnerNodes(vec![left_leaf, right_leaf]),
        mbr: BoundingRectangle::new((0, 0), (12, 2)),
        max_children: 4,
    };
    root.insert(point_entry(11, 1));
    match &root.children {
        ChildrenType::InnerNodes(ns) => {
            assert_eq!(leaf_count(&ns[0]), 2);
            assert_eq!(leaf_count(&ns[1]), 3);
            assert!(contains(&ns[1].mbr, &BoundingRectangle::new((11, 1), (11, 1))));
        }
        ChildrenType::Leafs(_) => panic!("root must stay an inner node"),
    }
}

#[test]
fn test_find_least_enlargement_choice() {
    let near = RtreeNode::new(BoundingRectangle::new((0, 0), (2, 2)), 4, ChildKind::Leafs);
    let far = RtreeNode::new(BoundingRectangle::new((10, 10), (11, 11)), 4, ChildKind::Leafs);
    let nodes = vec![near, far];
    let target = BoundingRectangle::new((1, 1), (2, 2));
    let (chosen, grown) = find_least_enlargement(&nodes, &target);
    assert_eq!(chosen, 0);
    assert_eq!(grown.left, (0, 0));
    assert_eq!(grown.right, (2, 2));
}

#[test]
fn test_read_only_queries_are_stable() {
    let mut node = RtreeNode::new(BoundingRectangle::new((1, 1), (1, 1)), 4, ChildKind::Leafs);
    for i in 1..=5 {
        node.insert(point_entry(i, i));
    }
    let first_mbr = *node.mbr();
    let second_mbr = *node.mbr();
    assert_eq!(first_mbr.left, second_mbr.left);
    assert_eq!(first_mbr.right, second_mbr.right);
    assert_eq!(first_mbr.area, second_mbr.area);
    let first_len = node.children.len();
    let second_len = node.children.len();
    assert_eq!(first_len, second_len);
    assert_eq!(node.id(), node.id());
}

#[test]
fn test_children_collection_api() {
    let mut children = ChildrenType::Leafs(Vec::new());
    assert_eq!(children.len(), 0);
    children.add_leaf(point_entry(4, 4));
    assert_eq!(children.len(), 1);
    let mut inner = ChildrenType::InnerNodes(Vec::new());
    inner.add_node(RtreeNode::new(
        BoundingRectangle::new((0, 0), (1, 1)),
        4,
        ChildKind::Leafs,
    ));
    assert_eq!(inner.len(), 1);
}

#[test]
fn test_execute_returns_both_groups() {
    let entries: Vec<RtreeGeometry> = vec![
        point_entry(0, 0),
        point_entry(8, 8),
        point_entry(1, 1),
        point_entry(7, 7),
        point_entry(4, 4),
    ];
    let node = RtreeNode {
        id: generate_id(),
        children: ChildrenType::Leafs(entries),
        mbr: BoundingRectangle::new((0, 0), (8, 8)),
        max_children: 4,
    };
    let (group_a, group_b) = node.execute();
    assert_eq!(leaf_count(&group_a) + leaf_count(&group_b), 5);
    assert!(leaf_count(&group_a) >= 2);
    assert!(leaf_count(&group_b) >= 2);
    assert_eq!(group_a.max_children, 4);
    assert_eq!(group_b.max_children, 4);
}

#[test]
fn test_generate_id_length() {
    let id = generate_id();
    assert_eq!(id.len(), 36);
}

#[test]
fn test_node_object_accessors() {
    let mut node = RtreeNode::new(BoundingRectangle::new((3, 4), (5, 6)), 4, ChildKind::Leafs);
    assert_eq!(node.id().len(), 36);
    assert_eq!(node.mbr().left, (3, 4));
    assert_eq!(node.mbr().right, (5, 6));
    node.set_mbr(BoundingRectangle::new((0, 0), (9, 9)));
    assert_eq!(node.mbr().right, (9, 9));
}
