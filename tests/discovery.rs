use myraft::iter::Iterator;
use myraft::kademlia::{JoinError, Msg, PingError};
use myraft::log_key::{decode_index, encode_index, KEY_LEN};
use myraft::log_store::{AppendError, LogStore};
use myraft::membership::{
    build_listing, next_join_step, parse_node_id, reconcile, CreateOutcome, JoinStep, ZPath,
};
use myraft::network::{MyRaftNetwork, NetworkError};
use myraft::types::{Entry, Payload};

#[test]
fn keys_are_big_endian() {
    assert_eq!(encode_index(1), vec![0, 0, 0, 0, 0, 0, 0, 1]);
    assert_eq!(encode_index(0x0102_0304_0506_0708), vec![1, 2, 3, 4, 5, 6, 7, 8]);
    assert_eq!(encode_index(u64::MAX), vec![255; 8]);
    assert_eq!(encode_index(0).len(), KEY_LEN);
}

#[test]
fn key_order_is_index_order() {
    let indices = [0u64, 1, 2, 255, 256, 257, 65535, 65536, 1 << 40, u64::MAX - 1, u64::MAX];
    for a in indices {
        for b in indices {
            assert_eq!(a.cmp(&b), encode_index(a).cmp(&encode_index(b)));
        }
    }
}

#[test]
fn keys_read_back() {
    for i in [0u64, 7, 300, 1 << 33, u64::MAX] {
        assert_eq!(decode_index(&encode_index(i)), Some(i));
    }
    assert_eq!(decode_index(&[1, 2, 3]), None);
    assert_eq!(decode_index(&[0; 9]), None);
}

#[test]
fn routing_table_starts_with_self() {
    let net = MyRaftNetwork::new(1, "127.0.0.1:5001".to_string());
    assert_eq!(net.peer_addr(1), Ok("127.0.0.1:5001".to_string()));
    assert_eq!(net.peer_addr(2), Err(NetworkError::UnknownPeer { target: 2 }));
}

#[test]
fn update_reports_new_peers_only() {
    let mut net = MyRaftNetwork::new(1, "a1".to_string());
    let listing = vec![(1, "a1".to_string()), (2, "a2".to_string()), (3, "a3".to_string())];
    assert_eq!(net.update_rt(&listing), vec![2, 3]);
    assert_eq!(net.peer_addr(3), Ok("a3".to_string()));
    let moved = vec![(2, "b2".to_string()), (3, "a3".to_string()), (4, "a4".to_string())];
    assert_eq!(net.update_rt(&moved), vec![4]);
    assert_eq!(net.peer_addr(2), Ok("b2".to_string()));
    assert_eq!(net.update_rt(&moved), Vec::<u64>::new());
    // Nodes missing from a listing stay.
    assert_eq!(net.update_rt(&vec![(1, "a1".to_string())]), Vec::<u64>::new());
    assert_eq!(net.peer_addr(4), Ok("a4".to_string()));
}

#[test]
fn self_moving_is_not_reported() {
    let mut net = MyRaftNetwork::new(1, "a1".to_string());
    assert_eq!(net.update_rt(&vec![(1, "new".to_string())]), Vec::<u64>::new());
    assert_eq!(net.peer_addr(1), Ok("new".to_string()));
}

#[test]
fn leader_adds_discovered_node() {
    let mut net = MyRaftNetwork::new(1, "a1".to_string());
    let children = vec![("1".to_string(), "a1".to_string()), ("2".to_string(), "a2".to_string())];
    let listing = build_listing(&children).unwrap();
    assert_eq!(listing, vec![(1, "a1".to_string()), (2, "a2".to_string())]);
    let plan = reconcile(&mut net, &listing, Some(1));
    assert_eq!(plan.add_non_voters, vec![2]);
    assert_eq!(plan.change_membership, Some(vec![1, 2]));
    assert_eq!(net.peer_addr(2), Ok("a2".to_string()));
}

#[test]
fn follower_only_updates_routes() {
    let mut net = MyRaftNetwork::new(2, "a2".to_string());
    let listing = vec![(1, "a1".to_string()), (2, "a2".to_string()), (1, "a1".to_string())];
    let plan = reconcile(&mut net, &listing, Some(1));
    assert!(plan.add_non_voters.is_empty());
    assert!(plan.change_membership.is_none());
    assert_eq!(net.peer_addr(1), Ok("a1".to_string()));
    let plan = reconcile(&mut net, &listing, None);
    assert!(plan.change_membership.is_none());
}

#[test]
fn leader_members_are_distinct() {
    let mut net = MyRaftNetwork::new(1, "a1".to_string());
    let listing = vec![(3, "a3".to_string()), (1, "a1".to_string()), (3, "a3".to_string())];
    let plan = reconcile(&mut net, &listing, Some(1));
    assert_eq!(plan.change_membership, Some(vec![3, 1]));
    assert_eq!(plan.add_non_voters, vec![3]);
}

#[test]
fn node_names_parse_as_ids() {
    assert_eq!(parse_node_id("0"), Some(0));
    assert_eq!(parse_node_id("42"), Some(42));
    assert_eq!(parse_node_id("18446744073709551615"), Some(u64::MAX));
    assert_eq!(parse_node_id("18446744073709551616"), None);
    assert_eq!(parse_node_id(""), None);
    assert_eq!(parse_node_id("4a"), None);
    assert_eq!(parse_node_id("-1"), None);
    let bad = vec![("1".to_string(), "a".to_string()), ("x".to_string(), "b".to_string())];
    assert_eq!(build_listing(&bad), None);
}

#[test]
fn registration_steps() {
    assert_eq!(next_join_step(ZPath::Node, CreateOutcome::Created), JoinStep::Joined);
    assert_eq!(next_join_step(ZPath::Node, CreateOutcome::NodeExists), JoinStep::Joined);
    assert_eq!(next_join_step(ZPath::Node, CreateOutcome::NoNode), JoinStep::Create(ZPath::Cluster));
    assert_eq!(next_join_step(ZPath::Cluster, CreateOutcome::NoNode), JoinStep::Create(ZPath::Root));
    assert_eq!(next_join_step(ZPath::Root, CreateOutcome::Created), JoinStep::Create(ZPath::Cluster));
    assert_eq!(next_join_step(ZPath::Root, CreateOutcome::NodeExists), JoinStep::Create(ZPath::Cluster));
    assert_eq!(next_join_step(ZPath::Cluster, CreateOutcome::NodeExists), JoinStep::Create(ZPath::Node));
    assert_eq!(next_join_step(ZPath::Cluster, CreateOutcome::Failed), JoinStep::Retry(ZPath::Cluster));
}

fn entry(index: u64) -> Entry {
    Entry { index, term: 1, payload: Payload::Blank }
}

#[test]
fn log_store_cursor_walks_indices() {
    let store = LogStore::from_parts(vec![entry(3), entry(4), entry(9)], 0, None, None).unwrap();
    let mut it = store.iter();
    assert_eq!(it.next(), Some(3));
    assert_eq!(it.next(), Some(4));
    assert_eq!(it.next(), Some(9));
    assert_eq!(it.next(), None);
    assert_eq!(it.prev(), Some(4));
    let mut back = store.rev_iter();
    assert_eq!(back.prev(), Some(9));
    assert_eq!(back.prev(), Some(4));
    assert_eq!(back.prev(), Some(3));
    assert_eq!(back.prev(), None);
}

#[test]
fn log_store_rejects_unordered_entries() {
    assert!(LogStore::from_parts(vec![entry(3), entry(3)], 0, None, None).is_none());
    assert!(LogStore::from_parts(vec![entry(5), entry(2)], 0, None, None).is_none());
}

#[test]
fn log_store_append_and_meta() {
    let mut store = LogStore::new();
    assert_eq!(store.append(entry(2)), Err(AppendError::IndexGap { last: 0, got: 2 }));
    assert_eq!(store.append(entry(1)), Ok(()));
    assert_eq!(store.append_batch(vec![entry(2), entry(3)]), Ok(()));
    assert_eq!(store.last(), (3, 1));
    assert_eq!(store.get(2).map(|e| e.index), Some(2));
    assert!(store.get(7).is_none());
    store.set_last_applied(2);
    assert_eq!(store.last_applied(), 2);
    store.clear_log();
    assert_eq!(store.len(), 0);
    assert_eq!(store.last_applied(), 2);
    store.put(entry(8));
    store.put(entry(5));
    assert_eq!(store.range(0, 10).iter().map(|e| e.index).collect::<Vec<_>>(), vec![5, 8]);
}

#[test]
fn lookup_messages_and_errors() {
    assert_eq!(PingError.message(), "ping error!");
    assert_eq!(JoinError.message(), "join error!");
    let m = Msg::FindNode { id: 1, target: 42 };
    assert_ne!(m, Msg::Ping { id: 1 });
}
