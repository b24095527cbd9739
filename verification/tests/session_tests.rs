use rga_core::session::server_session_id;
use rga_core::session::DocumentSession;
use rga_core::session::Presence;
use rga_core::session::ServerMsg;
use rga_core::ApplyOutcome;
use rga_core::Replica;

fn replica(name: &str) -> Replica {
    Replica::new(name.to_string(), format!("{name}-session"))
}

fn session() -> DocumentSession {
    DocumentSession::new(server_session_id(42))
}

#[test]
fn hydration_contains_accepted_ops() {
    let mut session = session();
    session.connect(1);
    let mut source = replica("a");
    let op = source.local_insert(0, 'x').unwrap();

    session.process_ops(1, vec![op]);

    let hydrate = session.connect(2);
    let ServerMsg::Hydrate { ops, clients, .. } = hydrate else {
        panic!("expected hydrate");
    };
    assert_eq!(ops.len(), 1);
    assert_eq!(clients, 2);
}

#[test]
fn process_ops_does_not_echo_sender() {
    let mut session = session();
    session.connect(1);
    session.connect(2);
    let mut source = replica("a");
    let op = source.local_insert(0, 'x').unwrap();

    let (outcomes, broadcast) = session.process_ops(1, vec![op]).unwrap();

    assert_eq!(outcomes, vec![ApplyOutcome::Applied]);
    let broadcast = broadcast.unwrap();
    assert_eq!(broadcast.skip, Some(1));
    assert!(matches!(broadcast.message, ServerMsg::Ops { .. }));
}

#[test]
fn duplicate_ops_are_not_rebroadcast() {
    let mut session = session();
    session.connect(1);
    session.connect(2);
    let mut source = replica("a");
    let op = source.local_insert(0, 'x').unwrap();

    let (_, first) = session.process_ops(1, vec![op.clone()]).unwrap();
    assert!(first.is_some());
    let (outcomes, second) = session.process_ops(1, vec![op]).unwrap();

    assert_eq!(outcomes, vec![ApplyOutcome::Duplicate]);
    assert!(second.is_none());
}

#[test]
fn presence_is_removed_on_disconnect() {
    let mut session = session();
    session.connect(1);
    session.connect(2);

    let moved = session
        .update_presence(1, Presence { replica_id: "a".to_string(), cursor: 3 })
        .unwrap();
    assert!(matches!(moved.message, ServerMsg::Presence { clients: 2, .. }));

    let broadcast = session.disconnect(1);

    assert_eq!(broadcast.skip, None);
    let ServerMsg::Presence { presence, clients } = broadcast.message else {
        panic!("expected presence");
    };
    assert_eq!(clients, 1);
    assert!(!presence.iter().any(|p| p.replica_id == "a"));
}

#[test]
fn garbage_collect_rewrites_hydration_log_and_broadcasts() {
    let mut session = session();
    session.connect(1);
    session.connect(2);
    let mut source = replica("a");
    let insert_a = source.local_insert(0, 'a').unwrap();
    let insert_b = source.local_insert(1, 'b').unwrap();
    let delete_a = source.local_delete(0).unwrap();

    session.process_ops(1, vec![insert_a, insert_b, delete_a]);

    let broadcast = session.garbage_collect(1).unwrap();

    assert_eq!(broadcast.skip, Some(1));
    assert!(matches!(broadcast.message, ServerMsg::GarbageCollect { removed: 1 }));
    let ServerMsg::Hydrate { ops, .. } = session.connect(3) else {
        panic!("expected hydrate");
    };
    assert_eq!(ops.len(), 1);
}

#[test]
fn session_ignores_unknown_connections() {
    let mut session = session();
    session.connect(1);
    let mut source = replica("a");
    let op = source.local_insert(0, 'x').unwrap();

    assert!(session.process_ops(9, vec![op]).is_none());
    assert!(session.update_presence(9, Presence { replica_id: "a".to_string(), cursor: 0 }).is_none());
    assert!(session.garbage_collect(9).is_none());
    assert!(!session.set_identity(9, "a".to_string(), "s".to_string()));
    assert!(session.set_identity(1, "a".to_string(), "s".to_string()));
    assert_eq!(session.client_count(), 1);
}

#[test]
fn session_reports_rejected_ops_and_keeps_them_out_of_the_log() {
    let mut session = session();
    session.connect(1);
    session.connect(2);
    let mut source = replica("a");
    let insert_a = source.local_insert(0, 'a').unwrap();
    let insert_b = source.local_insert(1, 'b').unwrap();

    // `insert_b` names `insert_a` as its left node, which the session lacks.
    let (outcomes, broadcast) = session.process_ops(1, vec![insert_b.clone()]).unwrap();
    assert_eq!(outcomes, vec![ApplyOutcome::MissingDependency]);
    assert!(broadcast.is_none());

    let (outcomes, broadcast) = session.process_ops(2, vec![insert_a, insert_b]).unwrap();
    assert_eq!(outcomes, vec![ApplyOutcome::Applied, ApplyOutcome::Applied]);
    assert_eq!(broadcast.unwrap().skip, Some(2));
    let ServerMsg::Hydrate { ops, .. } = session.connect(3) else {
        panic!("expected hydrate");
    };
    assert_eq!(ops.len(), 2);
}

#[test]
fn presence_update_replaces_the_entry_of_the_replica() {
    let mut session = session();
    session.connect(1);
    session.update_presence(1, Presence { replica_id: "a".to_string(), cursor: 1 });
    let broadcast = session
        .update_presence(1, Presence { replica_id: "a".to_string(), cursor: 5 })
        .unwrap();
    assert_eq!(broadcast.skip, None);
    let ServerMsg::Presence { presence, clients } = broadcast.message else {
        panic!("expected presence");
    };
    assert_eq!(clients, 1);
    assert_eq!(presence.len(), 1);
    assert_eq!(presence[0].replica_id, "a");
    assert_eq!(presence[0].cursor, 5);
}

#[test]
fn server_session_id_is_prefixed_decimal() {
    assert_eq!(server_session_id(0), "server-0");
    assert_eq!(server_session_id(1_700_000_000_123), "server-1700000000123");
}
