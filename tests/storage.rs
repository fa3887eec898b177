use myraft::kv::{encode_insert, encode_read, KvStateMachine};
use myraft::storage::{MyRaftStorage, RaftApp, StorageError};
use myraft::types::{Entry, HardState, Membership, Payload, SnapshotMeta};

type Kv = KvStateMachine;

fn insert_cmd(k: u64, v: &str) -> Vec<u8> {
    encode_insert(k, &v.as_bytes().to_vec())
}

fn normal(index: u64, term: u64, cmd: Vec<u8>) -> Entry {
    Entry { index, term, payload: Payload::Normal(cmd) }
}

fn config(index: u64, term: u64, members: Vec<u64>) -> Entry {
    Entry {
        index,
        term,
        payload: Payload::ConfigChange(Membership { members, members_after_consensus: None }),
    }
}

/// The value under `k`, empty when there is none.
fn read(s: &MyRaftStorage<Kv>, k: u64) -> Vec<u8> {
    let reply = s.handle_read(&encode_read(k)).unwrap();
    if reply[0] == 1 {
        reply[1..].to_vec()
    } else {
        vec![]
    }
}

/// Append and apply `n` inserts, entry `i` setting key `i` to `v<i>` in term 2.
fn node_with_applied(id: u64, n: u64) -> MyRaftStorage<Kv> {
    let mut s = MyRaftStorage::new(id, Kv::new());
    s.get_initial_state();
    s.append_entry_to_log(&config(1, 1, vec![1, 2, 3])).unwrap();
    s.apply_entry_to_state_machine(1, &insert_cmd(0, "init")).unwrap();
    for i in 2..=n {
        let cmd = insert_cmd(i, &format!("v{}", i));
        s.append_entry_to_log(&normal(i, 2, cmd.clone())).unwrap();
        s.apply_entry_to_state_machine(i, &cmd).unwrap();
    }
    s
}

#[test]
fn empty_log_last_is_zero() {
    let s = MyRaftStorage::new(1, Kv::new());
    assert_eq!(s.store().last(), (0, 0));
    assert_eq!(s.store().len(), 0);
}

#[test]
fn first_boot_initializes_hard_state() {
    let mut s = MyRaftStorage::new(4, Kv::new());
    assert_eq!(s.store().hard_state(), None);
    let init = s.get_initial_state();
    assert_eq!(init.last_log_index, 0);
    assert_eq!(init.last_log_term, 0);
    assert_eq!(init.last_applied_log, 0);
    assert_eq!(init.hard_state, HardState { current_term: 0, voted_for: None });
    assert_eq!(init.membership.members, vec![4]);
    assert_eq!(s.store().hard_state(), Some(HardState { current_term: 0, voted_for: None }));
}

#[test]
fn initial_state_after_boot_reads_the_log() {
    let mut s = MyRaftStorage::new(1, Kv::new());
    s.get_initial_state();
    s.save_hard_state(&HardState { current_term: 3, voted_for: Some(2) });
    s.append_entry_to_log(&config(1, 3, vec![1, 2])).unwrap();
    s.append_entry_to_log(&normal(2, 3, insert_cmd(1, "a"))).unwrap();
    s.apply_entry_to_state_machine(1, &insert_cmd(1, "a")).unwrap();
    let init = s.get_initial_state();
    assert_eq!(init.last_log_index, 2);
    assert_eq!(init.last_log_term, 3);
    assert_eq!(init.last_applied_log, 1);
    assert_eq!(init.hard_state, HardState { current_term: 3, voted_for: Some(2) });
    assert_eq!(init.membership.members, vec![1, 2]);
}

#[test]
fn delete_on_empty_log_is_noop() {
    let mut s = MyRaftStorage::new(1, Kv::new());
    s.delete_logs_from(1, None);
    assert_eq!(s.store().len(), 0);
    assert_eq!(s.store().last(), (0, 0));
}

#[test]
fn reversed_range_is_empty() {
    let s = node_with_applied(1, 5);
    assert!(s.get_log_entries(4, 2).is_empty());
    assert!(s.get_log_entries(3, 3).is_empty());
}

#[test]
fn range_is_half_open_and_ordered() {
    let s = node_with_applied(1, 6);
    let got: Vec<u64> = s.get_log_entries(2, 5).iter().map(|e| e.index).collect();
    assert_eq!(got, vec![2, 3, 4]);
    let all: Vec<u64> = s.get_log_entries(0, 100).iter().map(|e| e.index).collect();
    assert_eq!(all, vec![1, 2, 3, 4, 5, 6]);
}

#[test]
fn delete_bounded_and_open() {
    let mut s = node_with_applied(1, 2);
    for i in 3..=8 {
        s.append_entry_to_log(&normal(i, 2, insert_cmd(i, "x"))).unwrap();
    }
    s.delete_logs_from(4, Some(6));
    let got: Vec<u64> = s.get_log_entries(0, 100).iter().map(|e| e.index).collect();
    assert_eq!(got, vec![1, 2, 3, 6, 7, 8]);
    s.delete_logs_from(7, None);
    assert_eq!(s.store().last(), (6, 2));
}

#[test]
fn append_gap_is_refused() {
    let mut s = MyRaftStorage::new(1, Kv::new());
    match s.append_entry_to_log(&normal(2, 1, vec![])) {
        Err(StorageError::IndexGap { last, got }) => {
            assert_eq!(last, 0);
            assert_eq!(got, 2);
        }
        _ => panic!("gap accepted"),
    }
    assert_eq!(s.store().len(), 0);
    assert!(s.append_entry_to_log(&normal(1, 1, vec![])).is_ok());
    assert_eq!(s.store().last(), (1, 1));
}

#[test]
fn replicate_keeps_the_contiguous_prefix() {
    let mut s = MyRaftStorage::new(1, Kv::new());
    let batch = vec![normal(1, 1, vec![]), normal(2, 1, vec![]), normal(4, 1, vec![])];
    assert!(matches!(s.replicate_to_log(&batch), Err(StorageError::IndexGap { last: 2, got: 4 })));
    assert_eq!(s.store().last(), (2, 1));
    let batch = vec![normal(3, 2, vec![]), normal(4, 2, vec![])];
    assert!(s.replicate_to_log(&batch).is_ok());
    assert_eq!(s.store().last(), (4, 2));
}

#[test]
fn apply_of_missing_entry_is_refused() {
    let mut s = MyRaftStorage::new(1, Kv::new());
    match s.apply_entry_to_state_machine(1, &insert_cmd(1, "a")) {
        Err(StorageError::InconsistentLog { index }) => assert_eq!(index, 1),
        _ => panic!("applied an entry that is not in the log"),
    }
    assert_eq!(s.store().last_applied(), 0);
    assert!(read(&s, 1).is_empty());
}

#[test]
fn single_node_write_then_read() {
    let mut s = MyRaftStorage::new(1, Kv::new());
    s.get_initial_state();
    let cmd = insert_cmd(7, "a");
    s.append_entry_to_log(&normal(1, 1, cmd.clone())).unwrap();
    s.apply_entry_to_state_machine(1, &cmd).unwrap();
    assert_eq!(read(&s, 7), b"a".to_vec());
    assert_eq!(s.store().last_applied(), 1);
}

#[test]
fn three_nodes_apply_the_same_write() {
    let mut nodes: Vec<MyRaftStorage<Kv>> = (1..=3).map(|id| MyRaftStorage::new(id, Kv::new())).collect();
    let cmd = insert_cmd(1, "x");
    for n in nodes.iter_mut() {
        n.append_entry_to_log(&config(1, 1, vec![1, 2, 3])).unwrap();
        n.append_entry_to_log(&normal(2, 1, cmd.clone())).unwrap();
        n.replicate_to_state_machine(&vec![(2, cmd.clone())]).unwrap();
    }
    for n in &nodes {
        assert_eq!(read(n, 1), b"x".to_vec());
        assert!(n.store().last_applied() >= 1);
        assert_eq!(n.get_membership_config().members, vec![1, 2, 3]);
    }
}

#[test]
fn same_applied_index_gives_identical_snapshots() {
    let a = node_with_applied(1, 20);
    let b = node_with_applied(2, 20);
    assert_eq!(
        a.state_machine().make_snapshot(),
        b.state_machine().make_snapshot()
    );
}

#[test]
fn batch_apply_sets_last_applied_to_batch_end() {
    let mut s = MyRaftStorage::new(1, Kv::new());
    for i in 1..=3 {
        s.append_entry_to_log(&normal(i, 1, insert_cmd(i, "v"))).unwrap();
    }
    let batch = vec![(1, insert_cmd(1, "v")), (2, insert_cmd(2, "v")), (3, insert_cmd(3, "v"))];
    s.replicate_to_state_machine(&batch).unwrap();
    assert_eq!(s.store().last_applied(), 3);
    let missing = vec![(4, insert_cmd(4, "v"))];
    assert!(matches!(
        s.replicate_to_state_machine(&missing),
        Err(StorageError::InconsistentLog { index: 4 })
    ));
    assert!(read(&s, 4).is_empty());
    assert_eq!(s.store().last_applied(), 3);
}

#[test]
fn failed_apply_keeps_last_applied() {
    let mut s = node_with_applied(1, 3);
    let cmd = insert_cmd(9, "z");
    s.append_entry_to_log(&normal(4, 2, cmd.clone())).unwrap();
    // The state machine refuses a malformed command.
    let bad = vec![7u8];
    let mut failing = MyRaftStorage::new(1, Kv::new());
    failing.append_entry_to_log(&normal(1, 1, bad.clone())).unwrap();
    assert!(matches!(failing.apply_entry_to_state_machine(1, &bad), Err(StorageError::App(_))));
    assert_eq!(failing.store().last_applied(), 0);
    assert!(matches!(failing.replicate_to_state_machine(&vec![(1, bad.clone())]), Err(StorageError::App(_))));
    assert_eq!(failing.store().last_applied(), 0);
    // Re-applying after the failure goes through once the machine accepts.
    assert_eq!(s.store().last_applied(), 3);
    s.apply_entry_to_state_machine(4, &cmd).unwrap();
    s.apply_entry_to_state_machine(4, &cmd).unwrap();
    assert_eq!(s.store().last_applied(), 4);
    assert_eq!(read(&s, 9), b"z".to_vec());
}

#[test]
fn compaction_leaves_one_pointer() {
    let mut s = node_with_applied(1, 50);
    let snap = s.do_log_compaction().unwrap();
    assert_eq!(snap.index, 50);
    assert_eq!(snap.term, 2);
    assert_eq!(snap.membership.members, vec![1, 2, 3]);
    let log = s.get_log_entries(0, u64::MAX);
    assert_eq!(log.len(), 1);
    assert_eq!(log[0].index, 50);
    assert_eq!(log[0].term, 2);
    match &log[0].payload {
        Payload::SnapshotPointer { membership, .. } => assert_eq!(membership.members, vec![1, 2, 3]),
        _ => panic!("no snapshot pointer"),
    }
    let current = s.get_current_snapshot().unwrap();
    assert_eq!(current.index, 50);
    let init = s.get_initial_state();
    assert_eq!(init.last_applied_log, 50);
    assert_eq!(init.last_log_index, 50);
    assert_eq!(init.membership.members, vec![1, 2, 3]);
}

#[test]
fn compaction_keeps_entries_after_applied() {
    let mut s = node_with_applied(1, 5);
    s.append_entry_to_log(&normal(6, 3, insert_cmd(6, "late"))).unwrap();
    let snap = s.do_log_compaction().unwrap();
    assert_eq!(snap.index, 5);
    let got: Vec<u64> = s.get_log_entries(0, 100).iter().map(|e| e.index).collect();
    assert_eq!(got, vec![5, 6]);
}

#[test]
fn compaction_without_applied_entry_fails() {
    let mut s = MyRaftStorage::new(1, Kv::new());
    s.append_entry_to_log(&normal(1, 1, vec![])).unwrap();
    assert!(matches!(s.do_log_compaction(), Err(StorageError::InconsistentLog { index: 0 })));
    assert_eq!(s.store().len(), 1);
    assert!(s.get_current_snapshot().is_none());
}

#[test]
fn new_node_catches_up_from_snapshot() {
    let mut leader = node_with_applied(1, 50);
    let snap = leader.do_log_compaction().unwrap();
    let mut fresh = MyRaftStorage::new(4, Kv::new());
    fresh.get_initial_state();
    let (id, buf) = fresh.create_snapshot();
    assert!(id.is_empty() && buf.is_empty());
    fresh
        .finalize_snapshot_installation(50, snap.term, None, id, snap.clone())
        .unwrap();
    assert_eq!(
        fresh.state_machine().make_snapshot(),
        leader.state_machine().make_snapshot()
    );
    let log = fresh.get_log_entries(0, u64::MAX);
    assert_eq!(log.len(), 1);
    assert_eq!(log[0].index, 50);
    assert!(matches!(log[0].payload, Payload::SnapshotPointer { .. }));
    assert_eq!(fresh.get_current_snapshot().unwrap().index, 50);
    assert_eq!(fresh.store().last_applied(), 50);
    assert_eq!(read(&fresh, 7), b"v7".to_vec());
}

#[test]
fn snapshot_install_without_bound_clears_log() {
    let mut s = node_with_applied(1, 10);
    let meta = SnapshotMeta {
        index: 30,
        term: 4,
        membership: Membership { members: vec![1], members_after_consensus: None },
        data: vec![],
    };
    s.finalize_snapshot_installation(30, 4, None, "snap".to_string(), meta).unwrap();
    let log = s.get_log_entries(0, u64::MAX);
    assert_eq!(log.len(), 1);
    assert_eq!((log[0].index, log[0].term), (30, 4));
    match &log[0].payload {
        Payload::SnapshotPointer { id, membership } => {
            assert_eq!(id, "snap");
            assert_eq!(membership.members, vec![1, 2, 3]);
        }
        _ => panic!("no snapshot pointer"),
    }
    assert!(read(&s, 3).is_empty());
}

#[test]
fn snapshot_install_through_index_keeps_later_entries() {
    let mut s = node_with_applied(1, 8);
    let meta = SnapshotMeta {
        index: 5,
        term: 2,
        membership: Membership { members: vec![1, 2, 3], members_after_consensus: None },
        data: vec![],
    };
    s.finalize_snapshot_installation(5, 2, Some(5), String::new(), meta).unwrap();
    let got: Vec<u64> = s.get_log_entries(0, 100).iter().map(|e| e.index).collect();
    assert_eq!(got, vec![5, 6, 7, 8]);
    assert_eq!(s.store().last_applied(), 5);
    assert!(s.store().last_applied() <= s.store().last().0);
}

#[test]
fn refused_snapshot_changes_nothing() {
    let mut s = node_with_applied(1, 4);
    let meta = SnapshotMeta {
        index: 9,
        term: 2,
        membership: Membership { members: vec![1], members_after_consensus: None },
        data: vec![1, 2, 3],
    };
    assert!(matches!(
        s.finalize_snapshot_installation(9, 2, None, String::new(), meta),
        Err(StorageError::App(_))
    ));
    assert_eq!(s.store().len(), 4);
    assert_eq!(s.store().last_applied(), 4);
}

#[test]
fn restore_from_snapshot_undoes_later_writes() {
    let mut s = node_with_applied(1, 6);
    let before = s.state_machine().make_snapshot();
    let cmd = insert_cmd(2, "changed");
    s.append_entry_to_log(&normal(7, 2, cmd.clone())).unwrap();
    s.apply_entry_to_state_machine(7, &cmd).unwrap();
    assert_ne!(s.state_machine().make_snapshot(), before);
    let meta = SnapshotMeta {
        index: 6,
        term: 2,
        membership: Membership { members: vec![1, 2, 3], members_after_consensus: None },
        data: before.clone(),
    };
    s.finalize_snapshot_installation(6, 2, Some(7), String::new(), meta).unwrap();
    assert_eq!(s.state_machine().make_snapshot(), before);
}

#[test]
fn membership_follows_the_log() {
    let mut s = MyRaftStorage::new(1, Kv::new());
    assert_eq!(s.get_membership_config().members, vec![1]);
    s.append_entry_to_log(&config(1, 1, vec![1])).unwrap();
    s.append_entry_to_log(&config(2, 1, vec![1, 2])).unwrap();
    s.append_entry_to_log(&normal(3, 1, vec![])).unwrap();
    assert_eq!(s.get_membership_config().members, vec![1, 2]);
    assert_eq!(s.get_last_applied_membership_config(1).members, vec![1]);
    assert_eq!(s.get_last_membership_config().members, vec![1, 2]);
}

#[test]
fn blank_entries_carry_no_membership() {
    let mut s = MyRaftStorage::new(9, Kv::new());
    s.append_entry_to_log(&Entry { index: 1, term: 1, payload: Payload::Blank }).unwrap();
    assert_eq!(s.get_membership_config().members, vec![9]);
    assert!(s.get_membership_config().members_after_consensus.is_none());
}

#[test]
fn last_applied_never_passes_last_index() {
    let mut s = node_with_applied(1, 10);
    s.delete_logs_from(11, None);
    assert!(s.store().last_applied() <= s.store().last().0);
    s.do_log_compaction().unwrap();
    assert!(s.store().last_applied() <= s.store().last().0);
}

#[test]
fn delete_from_zero_on_empty_log_is_noop() {
    let mut s = MyRaftStorage::new(1, Kv::new());
    s.delete_logs_from(0, None);
    assert_eq!(s.store().len(), 0);
    assert_eq!(s.store().last_applied(), 0);
}

#[test]
fn empty_batch_changes_nothing() {
    let mut s = node_with_applied(1, 3);
    let before = s.state_machine().snapshot();
    assert!(s.replicate_to_state_machine(&vec![]).is_ok());
    assert_eq!(s.store().last_applied(), 3);
    assert_eq!(s.state_machine().snapshot(), before);
}

#[test]
fn compaction_records_the_state_machine_bytes() {
    let mut s = node_with_applied(1, 5);
    let bytes = s.state_machine().snapshot();
    let snap = s.do_log_compaction().unwrap();
    assert_eq!(snap.data, bytes);
}

#[test]
fn compact_with_records_given_bytes() {
    let mut s = node_with_applied(1, 4);
    let snap = s.compact_with(vec![1, 2, 3]).unwrap();
    assert_eq!(snap.data, vec![1, 2, 3]);
    assert_eq!(s.get_current_snapshot().unwrap().data, vec![1, 2, 3]);
    let mut empty = MyRaftStorage::new(1, Kv::new());
    empty.append_entry_to_log(&normal(1, 1, vec![])).unwrap();
    assert!(matches!(empty.compact_with(vec![5]), Err(StorageError::InconsistentLog { index: 0 })));
    assert!(empty.get_current_snapshot().is_none());
}
