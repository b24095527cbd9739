use rga_core::OperationId;
use rga_core::Rga;
use rga_core::RgaError;

fn id(replica_id: &str, lamport: u64) -> OperationId {
    OperationId::new(
        "session".to_string(),
        replica_id.to_string(),
        lamport,
        lamport,
    )
}

#[test]
fn empty_rga_is_empty_string() {
    let rga = Rga::new();
    assert_eq!(rga.to_string(), "");
}

#[test]
fn remote_insert_at_head() {
    let mut rga = Rga::new();
    rga.insert(None, 'a', id("a", 1)).unwrap();
    assert_eq!(rga.to_string(), "a");
}

#[test]
fn sequential_remote_inserts() {
    let mut rga = Rga::new();
    let a = id("a", 1);
    let b = id("a", 2);
    rga.insert(None, 'a', a.clone()).unwrap();
    rga.insert(Some(a), 'b', b).unwrap();
    assert_eq!(rga.to_string(), "ab");
}

#[test]
fn rga_concurrent_insert_same_position_converges() {
    let a = id("a", 1);
    let b = id("b", 1);

    let mut rga1 = Rga::new();
    rga1.insert(None, 'a', a.clone()).unwrap();
    rga1.insert(None, 'b', b.clone()).unwrap();

    let mut rga2 = Rga::new();
    rga2.insert(None, 'b', b).unwrap();
    rga2.insert(None, 'a', a).unwrap();

    assert_eq!(rga1.to_string(), rga2.to_string());
    assert_eq!(rga1.to_string(), "ba");
}

#[test]
fn delete_hides_node_but_keeps_anchor_for_concurrent_insert() {
    let mut rga = Rga::new();
    let a = id("a", 1);
    let b = id("a", 2);
    let x = id("b", 3);

    rga.insert(None, 'a', a.clone()).unwrap();
    rga.insert(Some(a.clone()), 'b', b).unwrap();
    rga.delete(a.clone(), id("a", 3)).unwrap();
    rga.insert(Some(a), 'x', x).unwrap();

    assert_eq!(rga.to_string(), "xb");
}

#[test]
fn missing_insert_anchor_is_reported() {
    let mut rga = Rga::new();
    let result = rga.insert(Some(id("missing", 1)), 'a', id("a", 1));
    assert_eq!(result, Err(RgaError::MissingDependency));
}

#[test]
fn tree_exposes_anchor_children_and_traversal_order() {
    let mut rga = Rga::new();
    let a = id("a", 1);
    let b = id("b", 1);
    rga.insert(None, 'a', a.clone()).unwrap();
    rga.insert(Some(a.clone()), 'b', b.clone()).unwrap();
    rga.delete(a.clone(), id("a", 2)).unwrap();

    let tree = rga.tree();

    assert_eq!(tree.text, "b");
    assert_eq!(tree.nodes.len(), 2);
    assert_eq!(tree.nodes[0].left, None);
    assert_eq!(tree.nodes[0].next, Some(b.clone()));
    assert!(tree.nodes[0].tombstone);
    assert_eq!(tree.nodes[0].visible_index, None);
    assert_eq!(tree.nodes[1].left, Some(a));
    assert_eq!(tree.nodes[1].visible_index, Some(0));
}

#[test]
fn clear_tombstones_removes_deleted_nodes_and_preserves_text() {
    let mut rga = Rga::new();
    let a = id("a", 1);
    let b = id("a", 2);
    let x = id("b", 3);
    rga.insert(None, 'a', a.clone()).unwrap();
    rga.insert(Some(a.clone()), 'b', b.clone()).unwrap();
    rga.delete(a.clone(), id("a", 3)).unwrap();
    rga.insert(Some(a), 'x', x.clone()).unwrap();

    let removed = rga.clear_tombstones();
    let tree = rga.tree();

    assert_eq!(removed, 1);
    assert_eq!(tree.text, "xb");
    assert_eq!(tree.nodes.len(), 2);
    assert_eq!(tree.nodes[0].id, x);
    assert_eq!(tree.nodes[0].left, None);
    assert_eq!(tree.nodes[0].next, Some(b.clone()));
    assert_eq!(tree.nodes[1].id, b);
}

#[test]
fn rga_error_messages() {
    assert_eq!(RgaError::DuplicateNode.to_string(), "duplicate node");
    assert_eq!(RgaError::MissingDependency.to_string(), "missing dependency");
    assert_eq!(RgaError::Invalid.to_string(), "invalid operation");
}

#[test]
fn operation_id_display() {
    let id = OperationId::new("s1".to_string(), "r7".to_string(), 12, 3);
    assert_eq!(id.to_string(), "s1:r7:12:3");
}

#[test]
fn rga_clone_and_default_are_independent_copies() {
    let mut rga = Rga::default();
    assert_eq!(rga.to_string(), "");
    rga.insert(None, 'a', OperationId::new("s".to_string(), "r".to_string(), 1, 1)).unwrap();
    let copy = rga.clone();
    rga.insert(None, 'b', OperationId::new("s".to_string(), "r".to_string(), 2, 2)).unwrap();
    assert_eq!(copy.to_string(), "a");
    assert_eq!(rga.to_string(), "ba");
    assert_eq!(copy.tree().nodes.len(), 1);
}

#[test]
fn clear_tombstones_keeps_text_when_a_deleted_node_has_children() {
    let mut rga = Rga::new();
    let t = id("a", 1);
    let s = id("a", 2);
    let c = id("a", 3);
    rga.insert(None, 't', t.clone()).unwrap();
    rga.insert(None, 's', s.clone()).unwrap();
    rga.insert(Some(t.clone()), 'c', c.clone()).unwrap();
    rga.delete(t, id("a", 4)).unwrap();
    assert_eq!(rga.to_string(), "sc");

    let removed = rga.clear_tombstones();
    let tree = rga.tree();

    assert_eq!(removed, 1);
    assert_eq!(rga.to_string(), "sc");
    assert_eq!(tree.nodes.len(), 2);
    assert_eq!(tree.nodes[0].id, s);
    assert_eq!(tree.nodes[0].left, None);
    assert_eq!(tree.nodes[1].id, c);
    assert_eq!(tree.nodes[1].left, Some(s));
    assert_eq!(rga.clear_tombstones(), 0);
}

#[test]
fn tree_next_links_visit_every_node_once_in_text_order() {
    let mut rga = Rga::new();
    let a = id("a", 1);
    let b = id("b", 2);
    let c = id("a", 3);
    let d = id("c", 4);
    rga.insert(None, 'a', a.clone()).unwrap();
    rga.insert(Some(a.clone()), 'b', b.clone()).unwrap();
    rga.insert(Some(a.clone()), 'c', c.clone()).unwrap();
    rga.insert(None, 'd', d.clone()).unwrap();
    rga.delete(c.clone(), id("a", 5)).unwrap();

    let tree = rga.tree();
    assert_eq!(tree.text, "dab");
    let first: Vec<_> = tree
        .nodes
        .iter()
        .filter(|n| tree.nodes.iter().all(|m| m.next.as_ref() != Some(&n.id)))
        .collect();
    assert_eq!(first.len(), 1);
    let mut seen = Vec::new();
    let mut cur = Some(first[0].id.clone());
    while let Some(idn) = cur {
        let node = tree.nodes.iter().find(|n| n.id == idn).unwrap();
        seen.push(node.id.clone());
        if let Some(v) = node.visible_index {
            assert_eq!(tree.text.chars().nth(v), Some(node.value));
        }
        assert_eq!(node.visible_index.is_none(), node.tombstone);
        assert_eq!(node.deleted_by.is_some(), node.tombstone);
        cur = node.next.clone();
    }
    assert_eq!(seen, vec![d, a, c, b]);
    let mut indices: Vec<usize> = tree.nodes.iter().filter_map(|n| n.visible_index).collect();
    indices.sort();
    assert_eq!(indices, vec![0, 1, 2]);
}

#[test]
fn insert_with_an_older_id_lands_at_one_position() {
    let mut rga = Rga::new();
    let a = id("a", 5);
    let b = id("a", 6);
    rga.insert(None, 'a', a.clone()).unwrap();
    rga.insert(Some(a.clone()), 'b', b).unwrap();
    assert_eq!(rga.to_string(), "ab");

    rga.insert(Some(a), 'x', id("z", 1)).unwrap();

    assert_eq!(rga.to_string(), "abx");
}

#[test]
fn clear_tombstones_keeps_anchors_when_they_keep_the_text() {
    let mut rga = Rga::new();
    let a = id("a", 1);
    let b = id("a", 2);
    let c = id("a", 3);
    let x = id("b", 4);
    rga.insert(None, 'a', a.clone()).unwrap();
    rga.insert(Some(a.clone()), 'b', b.clone()).unwrap();
    rga.insert(Some(b.clone()), 'c', c.clone()).unwrap();
    rga.delete(a.clone(), id("a", 5)).unwrap();
    rga.insert(Some(a), 'x', x.clone()).unwrap();
    assert_eq!(rga.to_string(), "xbc");

    assert_eq!(rga.clear_tombstones(), 1);
    let tree = rga.tree();

    assert_eq!(tree.text, "xbc");
    assert_eq!(tree.nodes[0].id, x);
    assert_eq!(tree.nodes[0].left, None);
    assert_eq!(tree.nodes[1].id, b);
    assert_eq!(tree.nodes[1].left, None);
    assert_eq!(tree.nodes[2].id, c);
    assert_eq!(tree.nodes[2].left, Some(b));
}
