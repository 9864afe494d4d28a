use resp_kv::journal::CmdQueue;

#[test]
fn add_keeps_ids_and_instants_monotonic() {
    let mut q = CmdQueue::new();
    assert!(q.add(b"one".to_vec(), 10));
    assert!(q.add(b"two".to_vec(), 5));
    assert!(q.add(b"three".to_vec(), 20));
    assert_eq!(q.queue.len(), 3);
    assert!(q.queue[0].id < q.queue[1].id);
    assert!(q.queue[1].id < q.queue[2].id);
    assert!(q.queue[0].ins <= q.queue[1].ins);
    assert!(q.queue[1].ins <= q.queue[2].ins);
    assert_eq!(q.queue[0].cmd, b"one".to_vec());
}

#[test]
fn read_after_cursor_returns_the_suffix_in_order() {
    let mut q = CmdQueue::new();
    assert_eq!(q.get_all_cmds_after_id(None), None);
    q.add(b"a".to_vec(), 1);
    q.add(b"b".to_vec(), 2);
    q.add(b"c".to_vec(), 3);
    let (cursor, cmds) = q.get_all_cmds_after_id(None).unwrap();
    assert_eq!(cmds, vec![b"a".to_vec(), b"b".to_vec(), b"c".to_vec()]);
    assert_eq!(cursor, q.queue[2].id);
    let (c2, rest) = q.get_all_cmds_after_id(Some(q.queue[0].id)).unwrap();
    assert_eq!(rest, vec![b"b".to_vec(), b"c".to_vec()]);
    assert_eq!(c2, q.queue[2].id);
    let (c3, tail) = q.get_all_cmds_after_id(Some(cursor)).unwrap();
    assert_eq!(tail, Vec::<Vec<u8>>::new());
    assert_eq!(c3, cursor);
}

#[test]
fn retention_sweep_drops_only_the_expired_front() {
    let mut q = CmdQueue::new();
    q.add(b"old".to_vec(), 0);
    q.add(b"new".to_vec(), 100);
    q.remove_all_expired_node(103, 5);
    assert_eq!(q.queue.len(), 1);
    assert_eq!(q.queue[0].cmd, b"new".to_vec());
    q.remove_all_expired_node(90, 5);
    assert_eq!(q.queue.len(), 1);
}

#[test]
fn node_expiry_follows_the_window() {
    let n = resp_kv::journal::Node::new(b"x".to_vec(), 100);
    assert!(!n.has_expired(100, 5));
    assert!(!n.has_expired(105, 5));
    assert!(n.has_expired(106, 5));
}
