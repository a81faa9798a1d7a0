use datacake_cluster::counters::KeyspaceCounters;
use datacake_cluster::hlc::Hlc;
use datacake_cluster::keyspace::{KeyspaceGroup, KeyspaceState};
use datacake_cluster::membership::{member_ids, membership_changes, topology_of, ClusterMember};
use datacake_cluster::options::{ClusterOptions, DEFAULT_CLUSTER_ID, DEFAULT_DATA_CENTER};
use datacake_cluster::orswot::{OrSwotSet, Stamp};
use datacake_cluster::poller::{changed_keyspaces, should_sync};
use datacake_cluster::selector::{
    consistency_outcome, Consistency, ConsistencyError, NodeAddr, Topology, TIMEOUT_LIMIT_MS,
};

fn addr(n: u16) -> NodeAddr {
    NodeAddr { ip: 0x7f00_0001, port: 8000 + n }
}

fn topo(pairs: &[(&str, u16)]) -> Topology {
    Topology { nodes: pairs.iter().map(|(dc, n)| (dc.to_string(), addr(*n))).collect() }
}

#[test]
fn counters_round_trip() {
    let mut c = KeyspaceCounters::new();
    c.set("users", 1700);
    c.set("orders", 0);
    c.set("ünïcode", u64::MAX);
    c.set("users", 1800);
    let bytes = c.encode();
    let back = KeyspaceCounters::decode(&bytes).unwrap();
    assert_eq!(back.get("users"), 1800);
    assert_eq!(back.get("orders"), 0);
    assert_eq!(back.get("ünïcode"), u64::MAX);
    assert_eq!(back.entries().len(), 3);
    let empty = KeyspaceCounters::decode(&KeyspaceCounters::new().encode()).unwrap();
    assert!(empty.entries().is_empty());
}

#[test]
fn counters_reject_malformed_bytes() {
    let mut c = KeyspaceCounters::new();
    c.set("a", 1);
    let bytes = c.encode();
    assert!(KeyspaceCounters::decode(&bytes[..bytes.len() - 1]).is_err());
    let mut extra = bytes.clone();
    extra.push(0);
    assert!(KeyspaceCounters::decode(&extra).is_err());
    let mut bad = bytes.clone();
    bad[16] = 0xff;
    assert!(KeyspaceCounters::decode(&bad).is_err());
    assert!(KeyspaceCounters::decode(&[1, 2, 3]).is_err());
}

#[test]
fn probe_skips_unchanged_keyspaces() {
    let mut known = KeyspaceCounters::new();
    known.set("a", 10);
    known.set("b", 20);
    let mut probed = KeyspaceCounters::new();
    probed.set("a", 10);
    probed.set("b", 25);
    probed.set("c", 0);
    probed.set("d", 5);
    let mut changed = changed_keyspaces(&known, &probed);
    changed.sort();
    assert_eq!(changed, vec!["b".to_string(), "c".to_string(), "d".to_string()]);
    assert!(changed_keyspaces(&probed, &probed) == vec!["c".to_string()]);
    assert!(should_sync(0, 0));
    assert!(!should_sync(7, 7));
    assert!(should_sync(8, 7));
}

#[test]
fn selector_levels() {
    let t = topo(&[("eu", 1), ("us", 2), ("eu", 3), ("eu", 4), ("us", 5)]);
    assert_eq!(t.get_nodes("eu", Consistency::LocalOnly), Ok(vec![]));
    assert_eq!(t.get_nodes("eu", Consistency::One), Ok(vec![addr(1)]));
    assert_eq!(t.get_nodes("us", Consistency::LocalOne), Ok(vec![addr(2)]));
    assert_eq!(t.get_nodes("eu", Consistency::LocalQuorum), Ok(vec![addr(1), addr(3)]));
    assert_eq!(t.get_nodes("eu", Consistency::Quorum), Ok(vec![addr(1), addr(2), addr(3)]));
    assert_eq!(
        t.get_nodes("eu", Consistency::EachQuorum),
        Ok(vec![addr(1), addr(2), addr(3), addr(5)])
    );
    assert_eq!(t.get_nodes("eu", Consistency::All).unwrap().len(), 5);
}

#[test]
fn selector_not_enough_nodes() {
    let t = topo(&[("eu", 1)]);
    assert_eq!(t.get_nodes("asia", Consistency::LocalOne), Err(ConsistencyError::NotEnoughNodes));
    assert_eq!(t.get_nodes("asia", Consistency::LocalQuorum), Ok(vec![]));
    let empty = Topology::new();
    assert_eq!(empty.get_nodes("eu", Consistency::Quorum), Ok(vec![]));
    assert_eq!(empty.get_nodes("eu", Consistency::One), Err(ConsistencyError::NotEnoughNodes));
    assert_eq!(empty.get_nodes("eu", Consistency::EachQuorum), Ok(vec![]));
    assert_eq!(empty.get_nodes("eu", Consistency::All), Ok(vec![]));
}

#[test]
fn quorum_failure_counts_acks() {
    let t = topo(&[("dc", 1), ("dc", 2)]);
    let targets = t.get_nodes("dc", Consistency::Quorum).unwrap();
    assert_eq!(targets, vec![addr(1)]);
    let acks = vec![false];
    assert_eq!(
        consistency_outcome(&acks),
        Err(ConsistencyError::ConsistencyFailure { responses: 1, required: 2, timeout_ms: TIMEOUT_LIMIT_MS })
    );
    assert_eq!(
        consistency_outcome(&vec![true, false, false]),
        Err(ConsistencyError::ConsistencyFailure { responses: 2, required: 4, timeout_ms: TIMEOUT_LIMIT_MS })
    );
    assert_eq!(consistency_outcome(&vec![true]), Ok(()));
    assert_eq!(consistency_outcome(&vec![]), Ok(()));
}

fn member(id: &str, n: u16, dc: &str) -> ClusterMember {
    ClusterMember { node_id: id.to_string(), public_addr: addr(n), data_center: dc.to_string() }
}

#[test]
fn membership_changes_and_topology() {
    let last = vec![member("a", 1, "eu"), member("b", 2, "us")];
    let new = vec![member("b", 2, "us"), member("c", 3, "eu"), member("a", 9, "eu")];
    let (added, removed) = membership_changes(&member_ids(&last), &member_ids(&new));
    assert_eq!(added, vec![("c".to_string(), addr(3)), ("a".to_string(), addr(9))]);
    assert_eq!(removed, vec![("a".to_string(), addr(1))]);
    let t = topology_of(&new);
    assert_eq!(t.nodes, vec![("us".to_string(), addr(2)), ("eu".to_string(), addr(3)), ("eu".to_string(), addr(9))]);
}

#[test]
fn group_mutations_track_state_and_counters() {
    let mut g = KeyspaceGroup::new();
    assert!(g.get_keyspace("docs").is_none());
    g.put("docs", 1, Hlc::new(10, 0, 1), 500);
    g.put("docs", 2, Hlc::new(11, 0, 1), 700);
    g.del("docs", 1, Hlc::new(12, 0, 1), 600);
    let ks = g.get_keyspace("docs").unwrap();
    assert_eq!(ks.set().get(1), Some(Stamp { ts: Hlc::new(12, 0, 1), dead: true }));
    assert!(ks.set().contains(2));
    assert_eq!(ks.last_updated(), 700);
    let counters = KeyspaceCounters::decode(&g.serialize_keyspace_counters()).unwrap();
    assert_eq!(counters.get("docs"), 700);
    let snap = g.keyspace_snapshot("docs").unwrap();
    let back = KeyspaceGroup::load_snapshot(&snap).unwrap();
    assert_eq!(back.get(2), ks.set().get(2));
    assert!(g.keyspace_snapshot("none").is_none());
}

#[test]
fn group_create_and_load_keep_existing_state() {
    let mut g = KeyspaceGroup::new();
    let mut s = OrSwotSet::new();
    s.insert(4, Hlc::new(1, 0, 0));
    g.load_states(vec![("a".to_string(), s.clone_set()), ("b".to_string(), OrSwotSet::new())]);
    g.get_or_create_keyspace("a");
    g.get_or_create_keyspace("c");
    assert!(g.get_keyspace("a").unwrap().set().contains(4));
    assert_eq!(g.get_keyspace("c").unwrap().set().len(), 0);
    let counters = KeyspaceCounters::decode(&g.serialize_keyspace_counters()).unwrap();
    assert_eq!(counters.get("a"), 0);
    assert_eq!(counters.entries().len(), 3);
}

#[test]
fn keyspace_state_batches() {
    let mut ks = KeyspaceState::spawn("k", OrSwotSet::new());
    ks.multi_put(&vec![(1, Hlc::new(5, 0, 1)), (2, Hlc::new(5, 1, 1))], 40);
    ks.multi_del(&vec![(1, Hlc::new(6, 0, 1))], 30);
    assert_eq!(ks.last_updated(), 40);
    assert!(!ks.set().contains(1));
    assert!(ks.set().contains(2));
    let purged = ks.purge_tombstones(Hlc::new(7, 0, 0));
    assert_eq!(purged, vec![(1, Hlc::new(6, 0, 1))]);
    let back = OrSwotSet::load(&ks.serialize()).unwrap();
    assert_eq!(back.len(), 1);
    assert_eq!(ks.name_str(), "k");
}

#[test]
fn options_defaults_and_builders() {
    let o = ClusterOptions::default();
    assert_eq!(o.cluster_id(), DEFAULT_CLUSTER_ID);
    assert_eq!(o.data_center(), DEFAULT_DATA_CENTER);
    let o = o.with_cluster_id("prod").with_data_center("eu-west");
    assert_eq!(o.cluster_id(), "prod");
    assert_eq!(o.data_center(), "eu-west");
}

#[test]
fn second_probe_without_writes_syncs_nothing() {
    let mut probed = KeyspaceCounters::new();
    probed.set("a", 1000);
    probed.set("b", 2000);
    let first = changed_keyspaces(&KeyspaceCounters::new(), &probed);
    assert_eq!(first.len(), 2);
    let mut known = KeyspaceCounters::new();
    for name in first {
        known.set(&name, probed.get(&name));
    }
    assert!(changed_keyspaces(&known, &probed).is_empty());
}

#[test]
fn group_batches() {
    let mut g = KeyspaceGroup::new();
    g.multi_put("b", vec![(1, Hlc::new(1, 0, 1)), (2, Hlc::new(1, 1, 1))], 9);
    g.multi_del("b", vec![(2, Hlc::new(2, 0, 1)), (3, Hlc::new(2, 0, 1))], 8);
    let counters = KeyspaceCounters::decode(&g.serialize_keyspace_counters()).unwrap();
    assert_eq!(counters.get("b"), 9);
    let s = g.get_keyspace("b").unwrap().set();
    assert!(s.contains(1));
    assert!(!s.contains(2));
    assert_eq!(s.get(3), Some(Stamp { ts: Hlc::new(2, 0, 1), dead: true }));
}

#[test]
fn load_states_last_name_wins() {
    let mut g = KeyspaceGroup::new();
    g.put("x", 1, Hlc::new(1, 0, 1), 77);
    let mut a = OrSwotSet::new();
    a.insert(1, Hlc::new(1, 0, 0));
    let mut b = OrSwotSet::new();
    b.insert(2, Hlc::new(1, 0, 0));
    g.load_states(vec![("k".to_string(), a), ("k".to_string(), b)]);
    let k = g.get_keyspace("k").unwrap();
    assert!(k.set().contains(2) && !k.set().contains(1));
    let counters = KeyspaceCounters::decode(&g.serialize_keyspace_counters()).unwrap();
    assert_eq!(counters.get("k"), 0);
    assert_eq!(counters.get("x"), 77);
    assert!(g.get_keyspace("x").unwrap().set().contains(1));
}

#[test]
fn metadata_rows_rebuild_the_set() {
    let rows = vec![(1, Hlc::new(1, 0, 1), false), (1, Hlc::new(2, 0, 1), true), (2, Hlc::new(3, 0, 1), false)];
    let s = datacake_cluster::keyspace::set_from_metadata(&rows);
    assert_eq!(s.get(1), Some(Stamp { ts: Hlc::new(2, 0, 1), dead: true }));
    assert!(s.contains(2));
}

#[test]
fn group_purge_and_merge_report_keys() {
    let mut g = KeyspaceGroup::new();
    g.del("p", 4, Hlc::new(5, 0, 1), 1);
    let mut peer = OrSwotSet::new();
    peer.delete(6, Hlc::new(6, 0, 2));
    peer.insert(8, Hlc::new(50, 0, 2));
    let purged = g.merge_keyspace("p", &peer, Hlc::new(10, 0, 0));
    let mut purged = purged;
    purged.sort();
    assert_eq!(purged, vec![(4, Hlc::new(5, 0, 1)), (6, Hlc::new(6, 0, 2))]);
    assert!(g.get_keyspace("p").unwrap().set().contains(8));
    g.del("p", 8, Hlc::new(60, 0, 1), 2);
    assert_eq!(g.purge_keyspace("p", Hlc::new(61, 0, 0)), vec![(8, Hlc::new(60, 0, 1))]);
    assert!(g.purge_keyspace("none", Hlc::new(61, 0, 0)).is_empty());
}

#[test]
fn start_of_and_wins_for_replicated_changes() {
    let mut g = KeyspaceGroup::new();
    assert!(g.wins("w", 1, Hlc::new(5, 0, 1), false));
    g.put("w", 1, Hlc::new(5, 0, 1), 3);
    assert!(!g.wins("w", 1, Hlc::new(4, 0, 1), false));
    assert!(g.wins("w", 1, Hlc::new(5, 0, 1), true));
    let fresh = g.winning_pairs("w", &vec![(1, Hlc::new(4, 0, 2)), (2, Hlc::new(1, 0, 2)), (1, Hlc::new(6, 0, 2))], false);
    assert_eq!(fresh, vec![(2, Hlc::new(1, 0, 2)), (1, Hlc::new(6, 0, 2))]);
    g.touch("w", 2);
    g.touch("t", 11);
    let counters = KeyspaceCounters::decode(&g.serialize_keyspace_counters()).unwrap();
    assert_eq!(counters.get("w"), 3);
    assert_eq!(counters.get("t"), 11);
    assert_eq!(g.get_keyspace("t").unwrap().set().len(), 0);
}

#[test]
fn sync_bookkeeping_and_peer_filter() {
    let mut known = KeyspaceCounters::new();
    datacake_cluster::poller::record_sync(&mut known, "a", 5, false);
    assert_eq!(known.get("a"), 0);
    datacake_cluster::poller::record_sync(&mut known, "a", 5, true);
    assert_eq!(known.get("a"), 5);
    let ms = vec![member("me", 1, "eu"), member("b", 2, "us"), member("c", 1, "eu")];
    let peers = datacake_cluster::membership::peers_of(&ms, "me");
    assert_eq!(peers.len(), 2);
    assert_eq!(peers[0].node_id, "b");
    assert_eq!(peers[1].node_id, "c");
}
