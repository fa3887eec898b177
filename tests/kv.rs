use myraft::kv::{encode_insert, encode_read, encode_remove, KvStateMachine};
use myraft::log_store::LogStore;
use myraft::membership::{build_listing, reconcile};
use myraft::network::MyRaftNetwork;
use myraft::storage::{MyRaftStorage, RaftApp, StorageError};
use myraft::types::{Entry, Membership, Payload};

fn ins(k: u64, v: &str) -> Vec<u8> {
    encode_insert(k, &v.as_bytes().to_vec())
}

fn some(v: &str) -> Vec<u8> {
    let mut r = vec![1u8];
    r.extend(v.as_bytes());
    r
}

#[test]
fn command_layout() {
    assert_eq!(encode_insert(7, &b"a".to_vec()), vec![0, 0, 0, 0, 0, 0, 0, 0, 7, b'a']);
    assert_eq!(encode_remove(258), vec![1, 0, 0, 0, 0, 0, 0, 1, 2]);
    assert_eq!(encode_read(3), vec![0, 0, 0, 0, 0, 0, 0, 3]);
}

#[test]
fn insert_read_remove() {
    let mut sm = KvStateMachine::new();
    assert_eq!(sm.apply_command(&ins(7, "a")).unwrap(), vec![0]);
    assert_eq!(sm.read(&encode_read(7)).unwrap(), some("a"));
    assert_eq!(sm.apply_command(&ins(7, "b")).unwrap(), some("a"));
    assert_eq!(sm.read(&encode_read(7)).unwrap(), some("b"));
    assert_eq!(sm.apply_command(&encode_remove(7)).unwrap(), some("b"));
    assert_eq!(sm.read(&encode_read(7)).unwrap(), vec![0]);
    assert_eq!(sm.apply_command(&encode_remove(7)).unwrap(), vec![0]);
}

#[test]
fn keys_stay_ordered() {
    let mut sm = KvStateMachine::new();
    for k in [5u64, 1, 9, 3] {
        sm.insert(k, vec![k as u8]);
    }
    assert_eq!(sm.get(3), Some(vec![3]));
    assert_eq!(sm.get(4), None);
    let snap = sm.snapshot();
    let keys: Vec<u8> = snap.chunks(17).map(|r| r[7]).collect();
    assert_eq!(keys, vec![1, 3, 5, 9]);
}

#[test]
fn snapshot_layout() {
    let mut sm = KvStateMachine::new();
    sm.insert(2, b"xy".to_vec());
    assert_eq!(
        sm.snapshot(),
        vec![0, 0, 0, 0, 0, 0, 0, 2, 0, 0, 0, 0, 0, 0, 0, 2, b'x', b'y']
    );
    assert!(KvStateMachine::new().snapshot().is_empty());
}

#[test]
fn malformed_commands_are_refused() {
    let mut sm = KvStateMachine::new();
    sm.apply_command(&ins(1, "a")).unwrap();
    let before = sm.snapshot();
    assert!(sm.apply_command(&vec![]).is_err());
    assert!(sm.apply_command(&vec![0, 1, 2]).is_err());
    assert!(sm.apply_command(&vec![1, 0, 0, 0, 0, 0, 0, 0, 1, 9]).is_err());
    assert!(sm.apply_command(&vec![2, 0, 0, 0, 0, 0, 0, 0, 1]).is_err());
    assert!(sm.read(&vec![1, 2]).is_err());
    assert_eq!(sm.snapshot(), before);
}

#[test]
fn restore_undoes_later_writes() {
    let mut sm = KvStateMachine::new();
    for k in 0..10u64 {
        sm.apply_command(&ins(k, &format!("v{}", k))).unwrap();
    }
    let snap = sm.snapshot();
    sm.apply_command(&ins(3, "changed")).unwrap();
    sm.apply_command(&encode_remove(4)).unwrap();
    sm.apply_command(&ins(42, "new")).unwrap();
    sm.restore(&snap).unwrap();
    assert_eq!(sm.snapshot(), snap);
    assert_eq!(sm.get(3), Some(b"v3".to_vec()));
    assert_eq!(sm.get(42), None);
}

#[test]
fn malformed_snapshots_are_refused() {
    let mut sm = KvStateMachine::new();
    sm.insert(1, vec![1]);
    let before = sm.snapshot();
    // Truncated record.
    assert!(sm.restore(&vec![0, 0, 0]).is_err());
    // Value longer than the bytes.
    assert!(sm.restore(&vec![0, 0, 0, 0, 0, 0, 0, 1, 0, 0, 0, 0, 0, 0, 0, 5, 1]).is_err());
    // Keys out of order.
    let mut two = vec![0, 0, 0, 0, 0, 0, 0, 2, 0, 0, 0, 0, 0, 0, 0, 0];
    two.extend(vec![0, 0, 0, 0, 0, 0, 0, 1, 0, 0, 0, 0, 0, 0, 0, 0]);
    assert!(sm.restore(&two).is_err());
    assert_eq!(sm.snapshot(), before);
    sm.restore(&vec![]).unwrap();
    assert!(sm.snapshot().is_empty());
}

#[test]
fn same_commands_same_snapshot() {
    let cmds: Vec<Vec<u8>> = vec![ins(1, "x"), ins(2, "y"), encode_remove(1), ins(3, "z")];
    let mut a = KvStateMachine::new();
    let mut b = KvStateMachine::new();
    for c in &cmds {
        a.apply_command(c).unwrap();
        b.apply_command(c).unwrap();
    }
    assert_eq!(a.make_snapshot(), b.make_snapshot());
    let mut c = KvStateMachine::new();
    c.apply_command(&ins(2, "y")).unwrap();
    c.apply_command(&ins(3, "z")).unwrap();
    assert_eq!(a.snapshot(), c.snapshot());
}

fn normal(index: u64, cmd: Vec<u8>) -> Entry {
    Entry { index, term: 1, payload: Payload::Normal(cmd) }
}

#[test]
fn node_write_then_read_through_storage() {
    let mut s = MyRaftStorage::new(1, KvStateMachine::new());
    let init = s.get_initial_state();
    assert_eq!(init.membership.members, vec![1]);
    s.append_entry_to_log(&normal(1, ins(7, "a"))).unwrap();
    s.apply_entry_to_state_machine(1, &ins(7, "a")).unwrap();
    assert_eq!(s.handle_read(&encode_read(7)).unwrap(), some("a"));
    assert_eq!(s.store().last_applied(), 1);
}

#[test]
fn malformed_entry_is_not_applied() {
    let mut s = MyRaftStorage::new(1, KvStateMachine::new());
    s.append_entry_to_log(&normal(1, vec![9])).unwrap();
    assert!(matches!(s.apply_entry_to_state_machine(1, &vec![9]), Err(StorageError::App(_))));
    assert_eq!(s.store().last_applied(), 0);
}

#[test]
fn snapshot_install_restores_state_machine() {
    let mut leader = MyRaftStorage::new(1, KvStateMachine::new());
    leader
        .append_entry_to_log(&Entry {
            index: 1,
            term: 1,
            payload: Payload::ConfigChange(Membership { members: vec![1, 2], members_after_consensus: None }),
        })
        .unwrap();
    for i in 2..=50u64 {
        let c = ins(i, &format!("v{}", i));
        leader.append_entry_to_log(&normal(i, c.clone())).unwrap();
        leader.apply_entry_to_state_machine(i, &c).unwrap();
    }
    let snap = leader.do_log_compaction().unwrap();
    assert_eq!(snap.index, 50);
    let mut fresh = MyRaftStorage::new(2, KvStateMachine::new());
    fresh.finalize_snapshot_installation(50, 1, None, String::new(), snap).unwrap();
    assert_eq!(fresh.state_machine().snapshot(), leader.state_machine().snapshot());
    assert_eq!(fresh.handle_read(&encode_read(50)).unwrap(), some("v50"));
    assert_eq!(fresh.get_current_snapshot().unwrap().index, 50);
}

#[test]
fn restart_after_compaction_resumes_at_snapshot() {
    let mut s = MyRaftStorage::new(1, KvStateMachine::new());
    s.get_initial_state();
    s.append_entry_to_log(&Entry {
        index: 1,
        term: 3,
        payload: Payload::ConfigChange(Membership { members: vec![1, 2, 3], members_after_consensus: None }),
    })
    .unwrap();
    for i in 2..=50u64 {
        let c = ins(i, "v");
        s.append_entry_to_log(&Entry { index: i, term: 3, payload: Payload::Normal(c.clone()) }).unwrap();
        s.apply_entry_to_state_machine(i, &c).unwrap();
    }
    let snap = s.do_log_compaction().unwrap();
    assert_eq!((snap.index, snap.term), (50, 3));
    let persisted = LogStore::from_parts(
        s.get_log_entries(0, u64::MAX),
        s.store().last_applied(),
        s.store().hard_state(),
        s.get_current_snapshot(),
    )
    .unwrap();
    let mut sm = KvStateMachine::new();
    sm.restore(&s.state_machine().snapshot()).unwrap();
    let mut restarted = MyRaftStorage::from_store(1, persisted, sm).unwrap();
    let init = restarted.get_initial_state();
    assert_eq!(init.last_applied_log, 50);
    assert_eq!((init.last_log_index, init.last_log_term), (50, 3));
    assert_eq!(init.membership.members, vec![1, 2, 3]);
}

#[test]
fn store_whose_applied_index_is_missing_is_refused() {
    let store = LogStore::from_parts(vec![normal(1, vec![])], 2, None, None).unwrap();
    assert!(MyRaftStorage::from_store(1, store, KvStateMachine::new()).is_none());
}

#[test]
fn discovered_node_joins_the_membership() {
    let mut s = MyRaftStorage::new(1, KvStateMachine::new());
    s.get_initial_state();
    s.append_entry_to_log(&Entry { index: 1, term: 1, payload: Payload::ConfigChange(Membership::new_initial(1)) })
        .unwrap();
    assert_eq!(s.get_membership_config().members, vec![1]);
    let mut net = MyRaftNetwork::new(1, "n1".to_string());
    let children = vec![("1".to_string(), "n1".to_string()), ("2".to_string(), "n2".to_string())];
    let plan = reconcile(&mut net, &build_listing(&children).unwrap(), Some(1));
    assert_eq!(plan.add_non_voters, vec![2]);
    let members = plan.change_membership.unwrap();
    // The consensus engine commits the change as a configuration entry.
    s.append_entry_to_log(&Entry {
        index: 2,
        term: 1,
        payload: Payload::ConfigChange(Membership { members, members_after_consensus: None }),
    })
    .unwrap();
    assert_eq!(s.get_membership_config().members, vec![1, 2]);
}
