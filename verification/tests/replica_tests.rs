use rga_core::ApplyOutcome;
use rga_core::Op;
use rga_core::OperationId;
use rga_core::Replica;

fn replica(name: &str) -> Replica {
    Replica::new(name.to_string(), format!("{name}-session"))
}

#[test]
fn local_insert_generates_operation_and_updates_text() {
    let mut replica = replica("a");

    let op = replica.local_insert(0, 'x').unwrap();

    assert_eq!(replica.text(), "x");
    match op {
        Op::Insert { left, value, id } => {
            assert_eq!(left, None);
            assert_eq!(value, 'x');
            assert_eq!(id.replica_id, "a");
            assert_eq!(id.lamport, 1);
            assert_eq!(id.seq, 1);
        }
        Op::Delete { .. } => panic!("expected insert"),
    }
}

#[test]
fn local_delete_generates_operation_and_updates_text() {
    let mut replica = replica("a");
    replica.local_insert(0, 'x').unwrap();

    let op = replica.local_delete(0).unwrap();

    assert_eq!(replica.text(), "");
    assert!(matches!(op, Op::Delete { .. }));
}

#[test]
fn remote_duplicate_is_reported_once() {
    let mut source = replica("a");
    let op = source.local_insert(0, 'x').unwrap();
    let mut target = replica("b");

    assert_eq!(target.apply_remote(op.clone()), ApplyOutcome::Applied);
    assert_eq!(target.apply_remote(op), ApplyOutcome::Duplicate);
    assert_eq!(target.text(), "x");
}

#[test]
fn missing_dependency_is_reported() {
    let mut source = replica("a");
    let anchor = source.local_insert(0, 'a').unwrap();
    let Op::Insert { id: anchor_id, .. } = anchor else {
        panic!("expected insert");
    };
    let op = Op::Insert {
        left: Some(anchor_id),
        value: 'x',
        id: OperationId::new("session".to_string(), "b".to_string(), 1, 1),
    };
    let mut target = replica("b");

    assert_eq!(target.apply_remote(op), ApplyOutcome::MissingDependency);
    assert_eq!(target.text(), "");
}

#[test]
fn batch_reports_duplicates_in_order() {
    let mut source = replica("a");
    let op = source.local_insert(0, 'x').unwrap();
    let mut target = replica("b");

    let outcomes = target.apply_remote_batch(vec![op.clone(), op]);

    assert_eq!(
        outcomes,
        vec![ApplyOutcome::Applied, ApplyOutcome::Duplicate]
    );
}

#[test]
fn hydration_ops_replay_document() {
    let mut source = replica("a");
    source.local_insert(0, 'a').unwrap();
    source.local_insert(1, 'b').unwrap();
    source.local_delete(0).unwrap();

    let mut target = replica("b");
    target.apply_remote_batch(source.hydration_ops());

    assert_eq!(target.text(), "b");
}

#[test]
fn replica_concurrent_insert_same_position_converges() {
    let mut a = replica("a");
    let mut b = replica("b");

    let op_a = a.local_insert(0, 'a').unwrap();
    let op_b = b.local_insert(0, 'b').unwrap();

    assert_eq!(a.apply_remote(op_b), ApplyOutcome::Applied);
    assert_eq!(b.apply_remote(op_a), ApplyOutcome::Applied);
    assert_eq!(a.text(), b.text());
    assert_eq!(a.text(), "ba");
}

#[test]
fn delete_then_concurrent_insert_keeps_tombstone_anchor() {
    let mut a = replica("a");
    let mut b = replica("b");

    let op_a = a.local_insert(0, 'a').unwrap();
    let op_b = a.local_insert(1, 'b').unwrap();
    b.apply_remote_batch(vec![op_a, op_b]);

    let delete_a = a.local_delete(0).unwrap();
    let insert_x = b.local_insert(1, 'x').unwrap();

    a.apply_remote(insert_x);
    b.apply_remote(delete_a);

    assert_eq!(a.text(), b.text());
    assert_eq!(a.text(), "xb");
}

#[test]
fn rga_tree_reflects_applied_ops() {
    let mut replica = replica("a");
    replica.local_insert(0, 'a').unwrap();
    replica.local_insert(1, 'b').unwrap();
    replica.local_delete(0).unwrap();

    let tree = replica.rga_tree();

    assert_eq!(tree.text, "b");
    assert_eq!(tree.nodes.len(), 2);
    assert!(tree.nodes[0].tombstone);
    assert_eq!(tree.nodes[1].value, 'b');
}

#[test]
fn clear_deleted_nodes_prunes_tombstones() {
    let mut replica = replica("a");
    replica.local_insert(0, 'a').unwrap();
    replica.local_insert(1, 'b').unwrap();
    replica.local_delete(0).unwrap();

    let removed = replica.clear_deleted_nodes();

    assert_eq!(removed, 1);
    assert_eq!(replica.text(), "b");
    assert_eq!(replica.rga_tree().nodes.len(), 1);
    assert_eq!(replica.hydration_ops().len(), 1);
}

#[test]
fn replica_clone_keeps_document_and_log() {
    let mut a = replica("a");
    a.local_insert(0, 'x').unwrap();
    a.local_insert(1, 'y').unwrap();
    let b = a.clone();
    a.local_delete(0).unwrap();
    assert_eq!(b.text(), "xy");
    assert_eq!(b.hydration_ops().len(), 2);
    assert_eq!(a.text(), "y");
}

#[test]
fn local_edits_land_at_their_positions_after_remote_ops() {
    let mut a = replica("a");
    let mut b = replica("b");
    // b's clock runs ahead of a's.
    for (i, c) in "wxyz".chars().enumerate() {
        b.local_insert(i, c).unwrap();
    }
    let ops = b.hydration_ops();
    a.local_insert(0, 'q').unwrap();
    for outcome in a.apply_remote_batch(ops) {
        assert_eq!(outcome, ApplyOutcome::Applied);
    }
    let before = a.text();
    a.local_insert(2, '!').unwrap();
    let mut expected: Vec<char> = before.chars().collect();
    expected.insert(2, '!');
    assert_eq!(a.text(), expected.into_iter().collect::<String>());
    assert_eq!(a.local_insert(99, '?'), None);
    a.local_delete(0).unwrap();
    let mut expected: Vec<char> = a.text().chars().collect();
    let removed = expected.remove(1);
    a.local_delete(1).unwrap();
    assert_eq!(a.text(), expected.into_iter().collect::<String>());
    assert_ne!(removed, ' ');
    assert_eq!(a.local_delete(99), None);
}

#[test]
fn replicas_applying_the_same_ops_in_different_orders_converge() {
    let mut a = replica("a");
    let mut b = replica("b");
    let mut c = replica("c");
    let x = a.local_insert(0, 'x').unwrap();
    let y = b.local_insert(0, 'y').unwrap();
    let z = c.local_insert(0, 'z').unwrap();
    let w = a.local_insert(1, 'w').unwrap();
    let dy = b.local_delete(0).unwrap();

    let orders = vec![
        vec![x.clone(), y.clone(), z.clone(), w.clone(), dy.clone()],
        vec![z.clone(), dy.clone(), y.clone(), x.clone(), w.clone()],
        vec![y.clone(), w.clone(), z.clone(), dy.clone(), x.clone()],
    ];
    let mut texts = Vec::new();
    for ops in orders {
        let mut r = replica("reader");
        let mut pending = ops;
        let mut rounds = 0;
        while !pending.is_empty() && rounds < 10 {
            let mut rest = Vec::new();
            for op in pending {
                if r.apply_remote(op.clone()) == ApplyOutcome::MissingDependency {
                    rest.push(op);
                }
            }
            pending = rest;
            rounds += 1;
        }
        assert!(pending.is_empty());
        texts.push(r.text());
    }
    assert_eq!(texts[0], "zxw");
    assert_eq!(texts[0], texts[1]);
    assert_eq!(texts[0], texts[2]);
}
