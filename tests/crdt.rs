use datacake_cluster::hlc::Hlc;
use datacake_cluster::orswot::{OrSwotSet, Stamp};
use datacake_cluster::poller::complete_keyspace_sync;

fn ts(ms: u64, counter: u32, node: u32) -> Hlc {
    Hlc::new(ms, counter, node)
}

fn same(a: &OrSwotSet, b: &OrSwotSet, keys: &[u64]) -> bool {
    a.len() == b.len() && a.floor() == b.floor() && keys.iter().all(|k| a.get(*k) == b.get(*k))
}

#[test]
fn insert_then_get() {
    let mut s = OrSwotSet::new();
    s.insert(1, ts(10, 0, 1));
    assert!(s.contains(1));
    assert_eq!(s.get(1), Some(Stamp { ts: ts(10, 0, 1), dead: false }));
    assert_eq!(s.len(), 1);
}

#[test]
fn older_insert_is_ignored() {
    let mut s = OrSwotSet::new();
    s.insert(1, ts(10, 0, 1));
    s.insert(1, ts(9, 5, 7));
    assert_eq!(s.get(1), Some(Stamp { ts: ts(10, 0, 1), dead: false }));
}

#[test]
fn delete_dominates_equal_timestamp_insert() {
    let t = ts(100, 0, 1);
    let mut a = OrSwotSet::new();
    a.insert(7, t);
    a.delete(7, t);
    assert!(!a.contains(7));
    let mut b = OrSwotSet::new();
    b.delete(7, t);
    b.insert(7, t);
    assert!(!b.contains(7));
    assert_eq!(a.get(7), Some(Stamp { ts: t, dead: true }));
}

#[test]
fn operations_commute_and_repeat_harmlessly() {
    let ops: Vec<(u64, Hlc, bool)> = vec![
        (1, ts(5, 0, 1), false),
        (1, ts(6, 0, 2), true),
        (2, ts(3, 1, 1), false),
        (1, ts(6, 0, 1), false),
        (2, ts(3, 1, 1), true),
    ];
    let apply = |order: &[usize]| {
        let mut s = OrSwotSet::new();
        for i in order {
            let (k, t, d) = ops[*i];
            if d {
                s.delete(k, t);
            } else {
                s.insert(k, t);
            }
        }
        s
    };
    let a = apply(&[0, 1, 2, 3, 4]);
    let b = apply(&[4, 3, 2, 1, 0]);
    let c = apply(&[2, 0, 4, 1, 3, 3, 0]);
    assert!(same(&a, &b, &[1, 2]));
    assert!(same(&a, &c, &[1, 2]));
    assert_eq!(a.get(1), Some(Stamp { ts: ts(6, 0, 2), dead: true }));
    assert_eq!(a.get(2), Some(Stamp { ts: ts(3, 1, 1), dead: true }));
}

fn sample(seed: u64) -> OrSwotSet {
    let mut s = OrSwotSet::new();
    s.insert(1, ts(seed, 0, 1));
    s.insert(2, ts(10 - seed, 0, 2));
    if seed % 2 == 0 {
        s.delete(3, ts(seed * 3, 0, 3));
    } else {
        s.insert(3, ts(seed * 2, 1, 3));
    }
    s
}

#[test]
fn merge_is_associative_commutative_idempotent() {
    let (a, b, c) = (sample(1), sample(2), sample(5));
    let mut ab = a.clone_set();
    ab.merge(&b);
    let mut ab_c = ab.clone_set();
    ab_c.merge(&c);
    let mut bc = b.clone_set();
    bc.merge(&c);
    let mut a_bc = a.clone_set();
    a_bc.merge(&bc);
    assert!(same(&ab_c, &a_bc, &[1, 2, 3]));
    let mut ba = b.clone_set();
    ba.merge(&a);
    assert!(same(&ab, &ba, &[1, 2, 3]));
    let mut aa = a.clone_set();
    aa.merge(&a);
    assert!(same(&aa, &a, &[1, 2, 3]));
    assert_eq!(ab.get(2), Some(Stamp { ts: ts(9, 0, 2), dead: false }));
    assert_eq!(ab.get(3), Some(Stamp { ts: ts(6, 0, 3), dead: true }));
}

#[test]
fn diff_reports_newer_entries_and_tombstones() {
    let mut local = OrSwotSet::new();
    local.insert(1, ts(5, 0, 1));
    local.insert(2, ts(5, 0, 1));
    let mut peer = OrSwotSet::new();
    peer.insert(1, ts(6, 0, 2));
    peer.insert(2, ts(4, 0, 2));
    peer.insert(3, ts(1, 0, 2));
    peer.delete(4, ts(2, 0, 2));
    let (mut changed, removed) = local.diff(&peer);
    changed.sort();
    assert_eq!(changed, vec![(1, ts(6, 0, 2)), (3, ts(1, 0, 2))]);
    assert_eq!(removed, vec![(4, ts(2, 0, 2))]);
    let (c2, r2) = local.diff(&local.clone_set());
    assert!(c2.is_empty() && r2.is_empty());
}

#[test]
fn purge_returns_old_tombstones_and_blocks_late_inserts() {
    let mut s = OrSwotSet::new();
    s.insert(9, ts(1, 0, 1));
    s.delete(9, ts(5, 0, 1));
    s.insert(10, ts(2, 0, 1));
    s.delete(11, ts(50, 0, 1));
    let purged = s.purge_old_deletes(ts(20, 0, 0));
    assert_eq!(purged, vec![(9, ts(5, 0, 1))]);
    assert_eq!(s.get(9), None);
    assert!(s.contains(10));
    assert_eq!(s.get(11), Some(Stamp { ts: ts(50, 0, 1), dead: true }));
    s.insert(9, ts(4, 0, 2));
    assert!(!s.contains(9));
    assert_eq!(s.floor(), ts(20, 0, 0));
}

#[test]
fn snapshot_round_trip() {
    let mut s = sample(4);
    s.purge_old_deletes(ts(2, 0, 0));
    let bytes = s.snapshot();
    assert_eq!(bytes.len(), 24 + 25 * s.len());
    let back = OrSwotSet::load(&bytes).unwrap();
    assert!(same(&s, &back, &[1, 2, 3]));
    let empty = OrSwotSet::new();
    let back = OrSwotSet::load(&empty.snapshot()).unwrap();
    assert_eq!(back.len(), 0);
}

#[test]
fn snapshot_rejects_malformed_bytes() {
    let s = sample(3);
    let mut bytes = s.snapshot();
    assert!(OrSwotSet::load(&bytes[..bytes.len() - 1]).is_err());
    assert!(OrSwotSet::load(&[0u8; 10]).is_err());
    let last = bytes.len() - 1;
    bytes[last] = 2;
    assert!(OrSwotSet::load(&bytes).is_err());
}

#[test]
fn last_writer_wins_after_partition_heals() {
    let mut n1 = OrSwotSet::new();
    let mut n2 = OrSwotSet::new();
    n1.insert(1, ts(100, 0, 1));
    n2.insert(1, ts(200, 0, 2));
    let s1 = n1.clone_set();
    let s2 = n2.clone_set();
    complete_keyspace_sync(&mut n1, &s2, ts(0, 0, 0));
    complete_keyspace_sync(&mut n2, &s1, ts(0, 0, 0));
    assert_eq!(n1.get(1), Some(Stamp { ts: ts(200, 0, 2), dead: false }));
    assert_eq!(n2.get(1), n1.get(1));
}

#[test]
fn delete_by_higher_node_wins_after_reconciliation() {
    let mut a = OrSwotSet::new();
    let mut b = OrSwotSet::new();
    a.insert(7, ts(500, 0, 1));
    b.delete(7, ts(500, 0, 2));
    let (sa, sb) = (a.clone_set(), b.clone_set());
    a.merge(&sb);
    b.merge(&sa);
    assert!(!a.contains(7));
    assert!(!b.contains(7));
    assert_eq!(a.get(7), b.get(7));
}

#[test]
fn cold_join_pulls_all_keys() {
    let mut n1 = OrSwotSet::new();
    for k in 0..100u64 {
        n1.insert(k, ts(1000 + k, 0, 1));
    }
    let mut n2 = OrSwotSet::new();
    let plan = datacake_cluster::poller::plan_keyspace_sync(&n2, &n1);
    assert_eq!(plan.fetch.len(), 100);
    assert!(plan.tombstones.is_empty());
    complete_keyspace_sync(&mut n2, &n1, ts(0, 0, 0));
    assert_eq!(n2.len(), 100);
    assert!((0..100u64).all(|k| n2.get(k) == n1.get(k)));
    let again = datacake_cluster::poller::plan_keyspace_sync(&n2, &n1);
    assert!(again.is_empty());
}

#[test]
fn tombstone_purge_keeps_key_deleted() {
    let mut s = OrSwotSet::new();
    s.insert(5, ts(10, 0, 1));
    s.delete(5, ts(20, 0, 1));
    let mut peer = s.clone_set();
    let purged = complete_keyspace_sync(&mut s, &peer.clone_set(), ts(30, 0, 0));
    assert_eq!(purged, vec![(5, ts(20, 0, 1))]);
    s.insert(5, ts(15, 0, 3));
    assert!(!s.contains(5));
    peer.insert(5, ts(15, 0, 3));
    assert!(!peer.contains(5));
}

#[test]
fn sync_order_does_not_matter_after_purge() {
    let h = ts(10, 0, 0);
    let mut local_x = OrSwotSet::new();
    local_x.delete(7, ts(5, 0, 1));
    let local_y = local_x.clone_set();
    let p = OrSwotSet::new();
    let mut q = OrSwotSet::new();
    q.insert(7, ts(3, 0, 2));
    let mut lx = local_x.clone_set();
    complete_keyspace_sync(&mut lx, &p, h);
    complete_keyspace_sync(&mut lx, &q, h);
    let mut p2 = p.clone_set();
    complete_keyspace_sync(&mut p2, &q, h);
    let mut ly = local_y.clone_set();
    complete_keyspace_sync(&mut ly, &p2, h);
    assert_eq!(lx.get(7), None);
    assert_eq!(ly.get(7), None);
    local_x.purge_old_deletes(ts(0, 0, 0));
}

#[test]
fn purge_only_below_given_horizon() {
    let mut peer = OrSwotSet::new();
    peer.purge_old_deletes(ts(10, 0, 0));
    let mut s = OrSwotSet::new();
    s.delete(1, ts(5, 0, 1));
    s.merge(&peer);
    assert_eq!(s.purge_old_deletes(ts(3, 0, 0)), vec![]);
    assert_eq!(s.get(1), Some(Stamp { ts: ts(5, 0, 1), dead: true }));
}

#[test]
fn merge_ignores_entries_below_own_horizon() {
    let mut s = OrSwotSet::new();
    s.purge_old_deletes(ts(10, 0, 0));
    let mut peer = OrSwotSet::new();
    peer.insert(1, ts(3, 0, 2));
    peer.insert(2, ts(12, 0, 2));
    s.merge(&peer);
    assert_eq!(s.get(1), None);
    assert!(s.contains(2));
}
