use crate::counters::{counter_of, KeyspaceCounters};
use crate::hlc::Hlc;
use crate::orswot::{
    admitted, lemma_merge_commutative, merged, newer_in, purgeable, purged, OrSwotSet, SetState, Stamp,
};
use vstd::prelude::*;

verus! {

/// Whether the probed counters ask for a sync of keyspace `name`.
pub open spec fn wanted(known: Map<Seq<char>, u64>, probed: Map<Seq<char>, u64>, name: Seq<char>) -> bool {
    probed.contains_key(name) && (probed[name] == 0 || probed[name] > counter_of(known, name))
}

/// The names of a list of strings.
pub open spec fn names_view(s: Seq<String>) -> Seq<Seq<char>> {
    s.map_values(|x: String| x@)
}

/// Whether a keyspace whose probed counter is `probed`, and whose counter at
/// the last successful sync was `known`, must be synchronised: when it went
/// up, or when it is 0, which means that the peer itself does not know.
pub fn should_sync(probed: u64, known: u64) -> (r: bool)
    ensures
        r == (probed == 0 || probed > known),
{
    probed == 0 || probed > known
}

/// The keyspaces of a peer's probed counters that must be synchronised,
/// given the counters recorded at the last successful sync with that peer.
pub fn changed_keyspaces(known: &KeyspaceCounters, probed: &KeyspaceCounters) -> (r: Vec<String>)
    requires
        known.wf(),
        probed.wf(),
    ensures
        forall|name: Seq<char>| #[trigger] names_view(r@).contains(name) <==> wanted(known.map(), probed.map(), name),
{
    let es = probed.entries();
    let mut out: Vec<String> = Vec::new();
    let mut i: usize = 0;
    while i < es.len()
        invariant
            known.wf(),
            probed.wf(),
            0 <= i <= es@.len(),
            forall|k: Seq<char>| probed.map().contains_key(k) <==> exists|j: int| 0 <= j < es@.len() && #[trigger] es@[j].0@ == k,
            forall|j: int| #![trigger es@[j]] 0 <= j < es@.len() ==> probed.map()[es@[j].0@] == es@[j].1,
            forall|name: Seq<char>| #[trigger] names_view(out@).contains(name) <==> wanted(known.map(), probed.map(), name)
                && exists|j: int| 0 <= j < i && es@[j].0@ == name,
        decreases es@.len() - i,
    {
        let ghost o0 = names_view(out@);
        let known_v = known.get(es[i].0.as_str());
        let ghost e = es@[i as int].0@;
        assert(probed.map()[e] == es@[i as int].1);
        assert(probed.map().contains_key(e));
        assert(known_v == counter_of(known.map(), e));
        if should_sync(es[i].1, known_v) {
            let n = es[i].0.clone();
            out.push(n);
            proof {
                assert(names_view(out@) =~= o0.push(e));
                assert forall|name: Seq<char>| #[trigger] names_view(out@).contains(name) <==> wanted(known.map(), probed.map(), name)
                    && exists|j: int| 0 <= j < i + 1 && es@[j].0@ == name by {
                    let v = names_view(out@);
                    if name != e {
                        if v.contains(name) {
                            let k = choose|k: int| 0 <= k < v.len() && #[trigger] v[k] == name;
                            assert(o0[k] == name);
                            assert(o0.contains(name));
                        }
                        if o0.contains(name) {
                            let k = choose|k: int| 0 <= k < o0.len() && #[trigger] o0[k] == name;
                            assert(v[k] == name);
                        }
                        if wanted(known.map(), probed.map(), name) && exists|j: int| 0 <= j < i + 1 && es@[j].0@ == name {
                            let j = choose|j: int| 0 <= j < i + 1 && es@[j].0@ == name;
                            assert(j != i);
                            assert(o0.contains(name));
                        }
                    } else {
                        assert(v[v.len() - 1] == name);
                        assert(es@[i as int].0@ == name);
                        assert(wanted(known.map(), probed.map(), name));
                    }
                }
            }
        } else {
            proof {
                assert(names_view(out@) =~= o0);
                assert(!wanted(known.map(), probed.map(), e));
                assert forall|name: Seq<char>| #[trigger] names_view(out@).contains(name) <==> wanted(known.map(), probed.map(), name)
                    && exists|j: int| 0 <= j < i + 1 && es@[j].0@ == name by {
                    if name != e {
                        if wanted(known.map(), probed.map(), name) && exists|j: int| 0 <= j < i + 1 && es@[j].0@ == name {
                            let j = choose|j: int| 0 <= j < i + 1 && es@[j].0@ == name;
                            assert(j != i);
                            assert(o0.contains(name));
                        }
                    } else {
                        assert(!o0.contains(name));
                    }
                }
            }
        }
        i = i + 1;
    }
    out
}

/// Records the outcome of syncing keyspace `name` whose probed counter was
/// `probed`: the known counter moves to it only when the sync succeeded (an
/// empty plan counts as success), so a failed sync is retried on the next tick.
pub fn record_sync(known: &mut KeyspaceCounters, name: &str, probed: u64, succeeded: bool)
    requires
        old(known).wf(),
    ensures
        final(known).wf(),
        succeeded ==> final(known).map() == old(known).map().insert(name@, probed),
        !succeeded ==> final(known).map() == old(known).map(),
{
    if succeeded {
        known.set(name, probed);
    }
}

/// What one sync of a keyspace with a peer has to do before merging: the
/// documents to fetch from the peer, and the tombstones to mark locally.
pub struct SyncPlan {
    pub fetch: Vec<u64>,
    pub tombstones: Vec<(u64, Hlc)>,
}

impl SyncPlan {
    /// Nothing to fetch and nothing to mark: the keyspace is already in step.
    pub fn is_empty(&self) -> (r: bool)
        ensures
            r == (self.fetch@.len() == 0 && self.tombstones@.len() == 0),
    {
        self.fetch.len() == 0 && self.tombstones.len() == 0
    }
}

/// The plan for syncing `local` with the peer's snapshot `peer`: fetch the
/// keys whose live entry at the peer would win locally, and mark the
/// tombstones of the peer that would win locally.
pub fn plan_keyspace_sync(local: &OrSwotSet, peer: &OrSwotSet) -> (r: SyncPlan)
    requires
        local.wf(),
        peer.wf(),
    ensures
        forall|k: u64| #[trigger] r.fetch@.contains(k) <==> peer@.entries.contains_key(k)
            && !peer@.entries[k].dead && newer_in(local@, k, peer@.entries[k]),
        forall|k: u64, t: Hlc| #[trigger] r.tombstones@.contains((k, t)) <==> peer@.entries.contains_key(k)
            && peer@.entries[k] == (Stamp { ts: t, dead: true }) && newer_in(local@, k, peer@.entries[k]),
{
    let (changed, removed) = local.diff(peer);
    let mut fetch: Vec<u64> = Vec::new();
    let ghost keys = changed@.map_values(|p: (u64, Hlc)| p.0);
    let mut i: usize = 0;
    while i < changed.len()
        invariant
            0 <= i <= changed@.len(),
            keys == changed@.map_values(|p: (u64, Hlc)| p.0),
            fetch@ == keys.take(i as int),
        decreases changed@.len() - i,
    {
        fetch.push(changed[i].0);
        i = i + 1;
        proof {
            assert(fetch@ =~= keys.take(i as int));
        }
    }
    proof {
        assert(keys.take(changed@.len() as int) =~= keys);
        assert forall|k: u64| #[trigger] fetch@.contains(k) <==> peer@.entries.contains_key(k)
            && !peer@.entries[k].dead && newer_in(local@, k, peer@.entries[k]) by {
            if fetch@.contains(k) {
                let j = choose|j: int| 0 <= j < fetch@.len() && fetch@[j] == k;
                let t = changed@[j].1;
                assert(changed@[j] == (k, t));
                assert(changed@.contains((k, t)));
            }
            if peer@.entries.contains_key(k) && !peer@.entries[k].dead && newer_in(local@, k, peer@.entries[k]) {
                let t = peer@.entries[k].ts;
                assert(changed@.contains((k, t)));
                let j = choose|j: int| 0 <= j < changed@.len() && changed@[j] == (k, t);
                assert(fetch@[j] == k);
            }
        }
    }
    SyncPlan { fetch, tombstones: removed }
}

/// The last step of a sync: merges the peer's snapshot into `local`, then
/// purges the tombstones below `horizon`; returns the purged keys with their
/// timestamps, whose payload tombstones can then be cleared.
pub fn complete_keyspace_sync(local: &mut OrSwotSet, peer: &OrSwotSet, horizon: Hlc) -> (r: Vec<(u64, Hlc)>)
    requires
        old(local).wf(),
        peer.wf(),
    ensures
        final(local).wf(),
        final(local)@ == purged(merged(old(local)@, peer@), horizon),
        forall|k: u64, t: Hlc| #[trigger] r@.contains((k, t)) <==> purgeable(merged(old(local)@, peer@).entries, horizon, k)
            && merged(old(local)@, peer@).entries[k].ts == t,
{
    local.merge(peer);
    local.purge_old_deletes(horizon)
}

/// After an anti-entropy exchange in both directions between two replicas
/// with the same horizon, each merging the other's state and purging below
/// the same horizon, the two replicas hold the same stamp for every key at or
/// above that horizon, and the same horizon.
pub proof fn lemma_anti_entropy_converges(a: SetState, b: SetState, horizon: Hlc)
    requires
        a.floor == b.floor,
    ensures
        admitted(purged(merged(a, b), horizon).entries, a.floor) == admitted(purged(merged(b, a), horizon).entries, a.floor),
        purged(merged(a, b), horizon).floor == purged(merged(b, a), horizon).floor,
{
    lemma_merge_commutative(a, b);
    let f = a.floor;
    let (x, y) = (merged(a, b).entries, merged(b, a).entries);
    assert forall|k: u64| #[trigger] admitted(x, f).contains_key(k) implies y.contains_key(k) && y[k] == x[k] by {
        assert(admitted(y, f).contains_key(k));
    }
    assert forall|k: u64| #[trigger] admitted(y, f).contains_key(k) implies x.contains_key(k) && y[k] == x[k] by {
        assert(admitted(x, f).contains_key(k));
    }
    assert(admitted(purged(merged(a, b), horizon).entries, f) =~= admitted(purged(merged(b, a), horizon).entries, f));
}

} // verus!
