use rga_core::crdt::char_id::CharId;
use rga_core::crdt::client_op::ClientOp;
use rga_core::crdt::node::Node;
use rga_core::crdt::flush::flush_tick;
use rga_core::crdt::op::Op;
use rga_core::crdt::op::OpBatch;
use rga_core::crdt::relay::join_request;
use rga_core::crdt::relay::Handling;
use rga_core::crdt::relay::Message;
use rga_core::crdt::relay::RelayState;
use rga_core::crdt::rga::Operation;
use rga_core::crdt::rga::Rga;
use rga_core::crdt::sync::SyncRegistry;
use rga_core::s4vector::S4Vector;

fn sv(ssn: u64, sid: u64, n: u64) -> S4Vector {
    S4Vector::new(ssn, sid, n, n)
}

#[test]
fn test_single_insert() {
    let mut rga = Rga::new(1, 0);
    let op = rga.local_insert(0, 'a');
    assert_eq!(op, Some(Operation::Insert { left: None, obj: 'a', s_k: sv(0, 1, 1) }));
    assert_eq!(rga.to_string(), "a");

    let mut other = Rga::new(2, 0);
    other.apply(op.unwrap());
    assert_eq!(other.to_string(), "a");
}

/// Three replicas insert at the same position at once; after exchanging
/// their operations all three hold the same text.
#[test]
fn test_concurrent_insert_same_position() {
    let mut r1 = Rga::new(1, 0);
    let mut r2 = Rga::new(2, 0);
    let mut r3 = Rga::new(3, 0);
    let x = r1.local_insert(0, 'x').unwrap();
    r2.apply(x.clone());
    r3.apply(x);

    let a = r1.local_insert(1, 'a').unwrap();
    let b = r2.local_insert(1, 'b').unwrap();
    let c = r3.local_insert(1, 'c').unwrap();
    assert_eq!(r1.to_string(), "xa");
    assert_eq!(r2.to_string(), "xb");
    assert_eq!(r3.to_string(), "xc");

    r1.apply(b.clone());
    r1.apply(c.clone());
    r2.apply(c);
    r2.apply(a.clone());
    r3.apply(a);
    r3.apply(b);
    assert_eq!(r1.to_string(), "xacb");
    assert_eq!(r2.to_string(), "xacb");
    assert_eq!(r3.to_string(), "xacb");
}

/// One replica deletes a character while another inserts right after it;
/// the tombstone still anchors the insert.
#[test]
fn test_delete_then_concurrent_insert() {
    let mut r1 = Rga::new(1, 0);
    let mut r2 = Rga::new(2, 0);
    let a = r1.local_insert(0, 'a').unwrap();
    let b = r1.local_insert(1, 'b').unwrap();
    r2.apply(a);
    r2.apply(b);

    let del = r1.local_delete(2).unwrap();
    let ins = r2.local_insert(2, 'c').unwrap();
    assert_eq!(r1.to_string(), "a");
    assert_eq!(r2.to_string(), "abc");

    r1.apply(ins);
    r2.apply(del);
    assert_eq!(r1.to_string(), "ac");
    assert_eq!(r2.to_string(), "ac");
}

/// The same operations applied in two different orders give one text.
#[test]
fn test_convergence_two_orderings() {
    let mut r1 = Rga::new(1, 0);
    let mut r2 = Rga::new(2, 0);
    let h = r1.local_insert(0, 'h').unwrap();
    let i = r1.local_insert(1, 'i').unwrap();
    r2.apply(h.clone());
    r2.apply(i.clone());

    let o1 = r1.local_insert(2, '!').unwrap();
    let o2 = r1.local_update(1, 'H').unwrap();
    let o3 = r2.local_insert(0, '>').unwrap();
    let o4 = r2.local_delete(2).unwrap();

    let mut first = Rga::new(7, 0);
    let mut second = Rga::new(8, 0);
    for op in [h.clone(), i.clone(), o1.clone(), o2.clone(), o3.clone(), o4.clone()] {
        first.apply(op);
    }
    for op in [h, i, o4, o3, o2, o1] {
        second.apply(op);
    }
    assert_eq!(first.to_string(), second.to_string());
    assert_eq!(first.to_string(), ">i!");
}

/// An update and a delete of one character at once: the delete wins on both
/// replicas.
#[test]
fn test_update_loses_to_delete() {
    let mut r1 = Rga::new(1, 0);
    let mut r2 = Rga::new(2, 0);
    let a = r1.local_insert(0, 'a').unwrap();
    r2.apply(a);

    let upd = r1.local_update(1, 'z').unwrap();
    let del = r2.local_delete(1).unwrap();
    assert_eq!(r1.to_string(), "z");
    assert_eq!(r2.to_string(), "");

    r1.apply(del);
    r2.apply(upd);
    assert_eq!(r1.to_string(), "");
    assert_eq!(r2.to_string(), "");
}

#[test]
fn crdt_local_edits_out_of_range_return_none() {
    let mut rga = Rga::new(1, 0);
    assert_eq!(rga.local_insert(1, 'a'), None);
    assert_eq!(rga.local_delete(0), None);
    assert_eq!(rga.local_delete(1), None);
    assert_eq!(rga.local_update(1, 'b'), None);
    assert_eq!(rga.to_string(), "");
    // No vector was used up: the next edit gets the first one.
    let op = rga.local_insert(0, 'a').unwrap();
    assert_eq!(op, Operation::Insert { left: None, obj: 'a', s_k: sv(0, 1, 1) });
}

#[test]
fn crdt_local_edits_report_their_targets() {
    let mut rga = Rga::new(4, 2);
    rga.local_insert(0, 'a');
    rga.local_insert(1, 'b');
    let ins = rga.local_insert(1, 'c').unwrap();
    assert_eq!(ins, Operation::Insert { left: Some(S4Vector::new(2, 4, 1, 1)), obj: 'c', s_k: S4Vector::new(2, 4, 3, 3) });
    assert_eq!(rga.to_string(), "acb");
    let upd = rga.local_update(3, 'B').unwrap();
    assert_eq!(upd, Operation::Update { target: S4Vector::new(2, 4, 2, 2), obj: 'B', s_k: S4Vector::new(2, 4, 4, 4) });
    let del = rga.local_delete(1).unwrap();
    assert_eq!(del, Operation::Delete { target: S4Vector::new(2, 4, 1, 1), s_k: S4Vector::new(2, 4, 5, 5) });
    assert_eq!(rga.to_string(), "cB");
}

#[test]
fn crdt_remote_ops_on_unknown_nodes_change_nothing() {
    let mut rga = Rga::new(1, 0);
    rga.local_insert(0, 'a');
    rga.apply(Operation::Insert { left: Some(sv(0, 9, 9)), obj: 'x', s_k: sv(0, 2, 1) });
    rga.apply(Operation::Delete { target: sv(0, 9, 9), s_k: sv(0, 2, 2) });
    rga.apply(Operation::Update { target: sv(0, 9, 9), obj: 'y', s_k: sv(0, 2, 3) });
    assert_eq!(rga.to_string(), "a");
}

#[test]
fn crdt_duplicate_insert_is_ignored() {
    let mut rga = Rga::new(1, 0);
    let op = rga.local_insert(0, 'a').unwrap();
    rga.apply(op.clone());
    rga.apply(Operation::Insert { left: None, obj: 'b', s_k: sv(0, 1, 1) });
    assert_eq!(rga.to_string(), "a");
}

#[test]
fn crdt_concurrent_updates_keep_the_higher_priority() {
    let mut r1 = Rga::new(1, 0);
    let mut r2 = Rga::new(2, 0);
    let a = r1.local_insert(0, 'a').unwrap();
    r2.apply(a);
    // Same session: the update with the larger sum has the higher priority.
    let u1 = r1.local_update(1, 'p').unwrap();
    let u2 = r2.local_update(1, 'q').unwrap();
    assert_eq!(u1, Operation::Update { target: sv(0, 1, 1), obj: 'p', s_k: sv(0, 1, 2) });
    assert_eq!(u2, Operation::Update { target: sv(0, 1, 1), obj: 'q', s_k: sv(0, 2, 1) });
    r1.apply(u2);
    r2.apply(u1);
    assert_eq!(r1.to_string(), "p");
    assert_eq!(r2.to_string(), "p");
}

#[test]
fn crdt_later_session_outranks_earlier() {
    let mut rga = Rga::new(1, 0);
    rga.apply(Operation::Insert { left: None, obj: 'a', s_k: sv(0, 5, 1) });
    rga.apply(Operation::Insert { left: None, obj: 'b', s_k: sv(1, 1, 1) });
    rga.apply(Operation::Insert { left: None, obj: 'c', s_k: sv(0, 6, 1) });
    assert_eq!(rga.to_string(), "bca");
    rga.apply(Operation::Update { target: sv(0, 5, 1), obj: 'A', s_k: sv(0, 1, 0) });
    // The update's vector precedes the insert that made the node: it loses.
    assert_eq!(rga.to_string(), "bca");
}

#[test]
fn char_id_orders_by_lamport_then_replica() {
    let a = CharId::new(1, 9);
    let b = CharId::new(2, 0);
    let c = CharId::new(2, 3);
    assert!(a < b);
    assert!(b < c);
    assert_eq!(CharId::new(2, 3), c);
    assert_eq!(c.lamport, 2);
    assert_eq!(c.replica_id, 3);
}

#[test]
fn crdt_op_accessors() {
    let id = CharId::new(3, 1);
    let ins = Op::insert(id, 'q', None);
    let del = Op::delete(id, 2);
    assert_eq!(ins, Op::Insert { id, value: 'q', after: None });
    assert_eq!(del, Op::Delete { target: id, deleted_by: 2 });
    assert_eq!(ins.id(), Some(id));
    assert_eq!(del.id(), None);
    assert!(ins.is_duplicate(|c| c == id));
    assert!(!ins.is_duplicate(|c| c.lamport == 4));
    assert!(!del.is_duplicate(|_| true));
}

#[test]
fn crdt_op_batch() {
    let empty = OpBatch::new(3, Vec::new());
    assert!(empty.is_empty());
    let batch = OpBatch::new(3, vec![Op::delete(CharId::new(1, 1), 3)]);
    assert!(!batch.is_empty());
    assert_eq!(batch.from_replica, 3);
    assert_eq!(batch.ops.len(), 1);
}

#[test]
fn crdt_node_new_is_live() {
    let s = sv(0, 1, 1);
    let node = Node::new('k', s.clone());
    assert_eq!(node.obj, Some('k'));
    assert_eq!(node.s_k, s);
    assert_eq!(node.s_p, s);
    assert_eq!(node.link, None);
    assert!(!node.is_tombstone());
    let dead = Node { obj: None, ..node };
    assert!(dead.is_tombstone());
}

#[test]
fn client_op_dispatches_by_kind() {
    let mut rga = Rga::new(1, 0);
    let op = |kind: &str, pos: usize, ch: Option<char>| ClientOp { op: kind.to_string(), pos, ch };

    let ins = op("insert", 0, Some('a')).apply_to(&mut rga);
    assert_eq!(ins, Some(Operation::Insert { left: None, obj: 'a', s_k: sv(0, 1, 1) }));
    assert_eq!(op("insert", 1, None).apply_to(&mut rga), None);
    assert_eq!(op("rename", 1, Some('x')).apply_to(&mut rga), None);
    assert_eq!(op("update", 1, None).apply_to(&mut rga), None);
    assert_eq!(rga.to_string(), "a");

    let upd = op("update", 1, Some('b')).apply_to(&mut rga);
    assert_eq!(upd, Some(Operation::Update { target: sv(0, 1, 1), obj: 'b', s_k: sv(0, 1, 2) }));
    assert_eq!(rga.to_string(), "b");
    let del = op("delete", 1, None).apply_to(&mut rga);
    assert_eq!(del, Some(Operation::Delete { target: sv(0, 1, 1), s_k: sv(0, 1, 3) }));
    assert_eq!(rga.to_string(), "");
}

#[test]
fn identifiers_display() {
    assert_eq!(CharId::new(12, 3).to_string(), "12@3");
    assert_eq!(S4Vector::new(1, 20, 300, 4).to_string(), "⟨1,20,300,4⟩");
}

#[test]
fn s4vector_precedence() {
    // Session first, then sum, then site id; the sequence number is ignored.
    assert!(S4Vector::new(0, 9, 9, 9).precedes(&S4Vector::new(1, 0, 0, 0)));
    assert!(S4Vector::new(1, 9, 1, 9).precedes(&S4Vector::new(1, 0, 2, 0)));
    assert!(S4Vector::new(1, 1, 2, 9).precedes(&S4Vector::new(1, 2, 2, 0)));
    assert!(!S4Vector::new(1, 2, 2, 0).precedes(&S4Vector::new(1, 2, 2, 7)));
    assert!(!S4Vector::new(1, 2, 2, 0).precedes(&S4Vector::new(1, 1, 2, 0)));
}

#[test]
fn relay_welcomes_with_history_and_forwards_batches() {
    let mut relay = RelayState::new();
    let Message::Welcome { history, peer_count } = relay.welcome() else {
        panic!("expected welcome");
    };
    assert!(history.is_empty());
    assert_eq!(peer_count, 0);
    let joined = relay.join(1);
    assert!(matches!(joined.message, Message::PeerJoined { replica_id: 1 }));
    assert_eq!(joined.exclude, 1);
    relay.join(2);
    relay.join(2);
    assert_eq!(relay.recipients(1), vec![2]);

    let op = Op::insert(CharId::new(1, 1), 'a', None);
    let handled = relay.handle_message(1, Message::Ops(OpBatch::new(1, vec![op.clone()])));
    let Handling::Forward(out) = handled else {
        panic!("expected forward");
    };
    assert_eq!(out.exclude, 1);
    assert!(matches!(out.message, Message::Ops(ref b) if b.ops == vec![op.clone()]));
    assert!(matches!(relay.handle_message(2, Message::UpdateDelay { delay_ms: 10 }), Handling::Ignore));
    assert!(matches!(relay.handle_message(2, Message::Ack), Handling::Unexpected));

    let Message::Welcome { history, peer_count } = relay.welcome() else {
        panic!("expected welcome");
    };
    assert_eq!(history, vec![op]);
    assert_eq!(peer_count, 2);

    let left = relay.leave(1);
    assert!(matches!(left.message, Message::PeerLeft { replica_id: 1 }));
    assert_eq!(relay.recipients(9), vec![2]);
}

#[test]
fn crdt_hydration_rebuilds_the_document() {
    let mut r1 = Rga::new(1, 0);
    r1.local_insert(0, 'a');
    r1.local_insert(1, 'b');
    r1.local_insert(2, 'c');
    r1.local_update(2, 'B');
    r1.local_delete(1);
    assert_eq!(r1.to_string(), "Bc");
    let ops = r1.hydration_ops();
    // a: insert + delete; b: insert + update; c: insert.
    assert_eq!(ops.len(), 5);
    assert_eq!(ops[0], Operation::Insert { left: None, obj: '\u{FFFD}', s_k: sv(0, 1, 1) });
    assert_eq!(ops[1], Operation::Delete { target: sv(0, 1, 1), s_k: sv(0, 1, 5) });
    assert_eq!(ops[3], Operation::Update { target: sv(0, 1, 2), obj: 'B', s_k: sv(0, 1, 4) });

    let mut r2 = Rga::new(2, 0);
    for op in ops {
        r2.apply(op);
    }
    assert_eq!(r2.to_string(), "Bc");
    assert_eq!(r2.tombstoned_keys(), vec![sv(0, 1, 1)]);
    // The rebuilt replica keeps the last operations: an older update loses.
    r2.apply(Operation::Update { target: sv(0, 1, 2), obj: 'x', s_k: sv(0, 1, 3) });
    assert_eq!(r2.to_string(), "Bc");
}

#[test]
fn crdt_gc_node_removes_only_tombstones() {
    let mut rga = Rga::new(1, 0);
    rga.local_insert(0, 'a');
    rga.local_insert(1, 'b');
    rga.local_insert(2, 'c');
    rga.local_delete(2);
    assert!(rga.is_tombstoned(&sv(0, 1, 2)));
    assert!(!rga.is_tombstoned(&sv(0, 1, 1)));
    assert!(!rga.is_tombstoned(&sv(0, 9, 9)));
    assert_eq!(rga.tombstoned_keys(), vec![sv(0, 1, 2)]);

    rga.gc_node(&sv(0, 1, 1));
    assert_eq!(rga.to_string(), "ac");
    rga.gc_node(&sv(0, 1, 2));
    assert_eq!(rga.to_string(), "ac");
    assert!(rga.tombstoned_keys().is_empty());
    // An insert anchored at the collected node no longer applies.
    rga.apply(Operation::Insert { left: Some(sv(0, 1, 2)), obj: 'x', s_k: sv(0, 2, 1) });
    assert_eq!(rga.to_string(), "ac");
    rga.local_insert(1, 'z');
    assert_eq!(rga.to_string(), "azc");
}

fn client_op(kind: &str, pos: usize, ch: Option<char>) -> ClientOp {
    ClientOp { op: kind.to_string(), pos, ch }
}

#[test]
fn sync_registry_relays_edits_on_the_next_sync() {
    let mut registry = SyncRegistry::new();
    assert_eq!(registry.connect(1), "");
    assert_eq!(registry.connect(2), "");
    assert_eq!(registry.client_count(), 2);

    let (text, clients) = registry
        .process_sync(1, vec![client_op("insert", 0, Some('h')), client_op("insert", 1, Some('i'))])
        .unwrap();
    assert_eq!(text, "hi");
    assert_eq!(clients, 2);

    // Client 2 gets client 1's operations on its own next sync.
    let (text, _) = registry.process_sync(2, vec![]).unwrap();
    assert_eq!(text, "hi");

    // A late joiner is hydrated from the first client.
    assert_eq!(registry.connect(3), "hi");
    assert_eq!(registry.process_sync(9, vec![]), None);

    registry.disconnect(1);
    assert_eq!(registry.client_count(), 2);
}

#[test]
fn sync_registry_collects_tombstones_every_replica_holds() {
    let mut registry = SyncRegistry::new();
    registry.connect(1);
    registry.connect(2);
    registry.process_sync(1, vec![client_op("insert", 0, Some('a')), client_op("insert", 1, Some('b'))]);
    registry.process_sync(2, vec![]);
    let (text, _) = registry.process_sync(1, vec![client_op("delete", 1, None)]).unwrap();
    assert_eq!(text, "b");
    // Only client 1 holds the tombstone, so nothing is collected yet. Client
    // 2 updates the character, then takes the delete, which wins; now both
    // replicas hold the tombstone and it is collected everywhere.
    let (text, _) = registry.process_sync(2, vec![client_op("update", 1, Some('A'))]).unwrap();
    assert_eq!(text, "b");
    // The queued update names a collected node and changes nothing.
    let (text, _) = registry.process_sync(1, vec![]).unwrap();
    assert_eq!(text, "b");
    let (text, _) = registry.process_sync(2, vec![client_op("insert", 1, Some('c'))]).unwrap();
    assert_eq!(text, "bc");
    let (text, _) = registry.process_sync(1, vec![]).unwrap();
    assert_eq!(text, "bc");
}

#[test]
fn only_a_join_names_a_connecting_peer() {
    assert_eq!(join_request(&Message::Join { replica_id: 7 }), Some(7));
    assert_eq!(join_request(&Message::Ack), None);
    assert_eq!(join_request(&Message::UpdateDelay { delay_ms: 10 }), None);
}

#[test]
fn flush_tick_sends_pending_ops_once_the_delay_has_passed() {
    let op = Op::Delete { target: CharId::new(1, 1), deleted_by: 1 };
    let mut pending = vec![op];

    let (elapsed, batch) = flush_tick(3, 0, 50, 120, &mut pending);
    assert_eq!(elapsed, 50);
    assert!(batch.is_none());
    assert_eq!(pending.len(), 1);

    let (elapsed, batch) = flush_tick(3, 100, 50, 120, &mut pending);
    assert_eq!(elapsed, 0);
    let batch = batch.unwrap();
    assert_eq!(batch.from_replica, 3);
    assert_eq!(batch.ops.len(), 1);
    assert!(pending.is_empty());

    let (elapsed, batch) = flush_tick(3, 100, 50, 120, &mut pending);
    assert_eq!(elapsed, 0);
    assert!(batch.is_none());
}
