use crate::codec::CorruptedState;
use crate::counters::{counter_of, decode_counters, KeyspaceCounters};
use crate::hlc::Hlc;
use crate::orswot::{
    applied, decode_snapshot, merged, newer_in, purgeable, purged, stamp_lt, OrSwotSet, SetState,
    Stamp,
};
use crate::poller::complete_keyspace_sync;
use vstd::prelude::*;

verus! {

/// The state after applying inserts (`dead == false`) or deletes (`dead ==
/// true`) of `pairs`, in order.
pub open spec fn applied_all(s: SetState, pairs: Seq<(u64, Hlc)>, dead: bool) -> SetState
    decreases pairs.len(),
{
    if pairs.len() == 0 {
        s
    } else {
        let p = pairs.last();
        applied(applied_all(s, pairs.drop_last(), dead), p.0, p.1, dead)
    }
}

/// The state after applying metadata rows `(key, ts, dead)`, in order.
pub open spec fn applied_rows(s: SetState, rows: Seq<(u64, Hlc, bool)>) -> SetState
    decreases rows.len(),
{
    if rows.len() == 0 {
        s
    } else {
        let r = rows.last();
        applied(applied_rows(s, rows.drop_last()), r.0, r.1, r.2)
    }
}

/// The pairs of `ps` whose stamp would win against `s`, in order.
pub open spec fn winning(s: SetState, ps: Seq<(u64, Hlc)>, dead: bool) -> Seq<(u64, Hlc)>
    decreases ps.len(),
{
    if ps.len() == 0 {
        Seq::empty()
    } else if newer_in(s, ps.last().0, Stamp { ts: ps.last().1, dead }) {
        winning(s, ps.drop_last(), dead).push(ps.last())
    } else {
        winning(s, ps.drop_last(), dead)
    }
}

/// The larger of two readings.
pub open spec fn later(a: u64, b: u64) -> u64 {
    if a > b {
        a
    } else {
        b
    }
}

/// Rebuilds the set of a keyspace from its storage metadata rows.
pub fn set_from_metadata(rows: &Vec<(u64, Hlc, bool)>) -> (r: OrSwotSet)
    ensures
        r.wf(),
        r@ == applied_rows(OrSwotSet::empty_state(), rows@),
{
    let mut s = OrSwotSet::new();
    let mut i: usize = 0;
    while i < rows.len()
        invariant
            0 <= i <= rows@.len(),
            s.wf(),
            s@ == applied_rows(OrSwotSet::empty_state(), rows@.take(i as int)),
        decreases rows@.len() - i,
    {
        proof {
            assert(rows@.take(i + 1).drop_last() =~= rows@.take(i as int));
        }
        let (k, ts, dead) = rows[i];
        if dead {
            s.delete(k, ts);
        } else {
            s.insert(k, ts);
        }
        i = i + 1;
    }
    assert(rows@.take(rows@.len() as int) =~= rows@);
    s
}

/// The CRDT set of one keyspace, with the wall-clock time of its last change.
pub struct KeyspaceState {
    name: String,
    set: OrSwotSet,
    last_updated: u64,
}

impl KeyspaceState {
    pub closed spec fn wf(&self) -> bool {
        self.set.wf()
    }

    pub closed spec fn name(&self) -> Seq<char> {
        self.name@
    }

    pub closed spec fn state(&self) -> SetState {
        self.set@
    }

    pub closed spec fn updated(&self) -> u64 {
        self.last_updated
    }

    /// The state of keyspace `name`, holding `set`, never changed yet.
    pub fn spawn(name: &str, set: OrSwotSet) -> (r: KeyspaceState)
        requires
            set.wf(),
        ensures
            r.wf(),
            r.name() == name@,
            r.state() == set@,
            r.updated() == 0,
    {
        KeyspaceState { name: name.to_owned(), set, last_updated: 0 }
    }

    pub fn name_str(&self) -> (r: &str)
        ensures
            r@ == self.name(),
    {
        self.name.as_str()
    }

    /// The wall-clock milliseconds of the last change, 0 before any. It never
    /// decreases, even when the wall clock steps back.
    pub fn last_updated(&self) -> (r: u64)
        ensures
            r == self.updated(),
    {
        self.last_updated
    }

    /// The set itself.
    pub fn set(&self) -> (r: &OrSwotSet)
        ensures
            r@ == self.state(),
            self.wf() ==> r.wf(),
    {
        &self.set
    }

    fn stamp(&mut self, wall: u64)
        ensures
            final(self).updated() == later(old(self).updated(), wall),
            final(self).set == old(self).set,
            final(self).name == old(self).name,
    {
        if wall > self.last_updated {
            self.last_updated = wall;
        }
    }

    /// Inserts `key` at `ts`; `wall` is the wall-clock reading of the change.
    pub fn put(&mut self, key: u64, ts: Hlc, wall: u64)
        requires
            old(self).wf(),
        ensures
            final(self).wf(),
            final(self).name() == old(self).name(),
            final(self).state() == applied(old(self).state(), key, ts, false),
            final(self).updated() == later(old(self).updated(), wall),
    {
        self.stamp(wall);
        self.set.insert(key, ts);
    }

    /// Deletes `key` at `ts`; `wall` is the wall-clock reading of the change.
    pub fn del(&mut self, key: u64, ts: Hlc, wall: u64)
        requires
            old(self).wf(),
        ensures
            final(self).wf(),
            final(self).name() == old(self).name(),
            final(self).state() == applied(old(self).state(), key, ts, true),
            final(self).updated() == later(old(self).updated(), wall),
    {
        self.stamp(wall);
        self.set.delete(key, ts);
    }

    fn apply_all(&mut self, pairs: &Vec<(u64, Hlc)>, dead: bool)
        requires
            old(self).wf(),
        ensures
            final(self).wf(),
            final(self).name() == old(self).name(),
            final(self).state() == applied_all(old(self).state(), pairs@, dead),
            final(self).updated() == old(self).updated(),
    {
        let mut i: usize = 0;
        while i < pairs.len()
            invariant
                0 <= i <= pairs@.len(),
                self.wf(),
                self.name() == old(self).name(),
                self.updated() == old(self).updated(),
                self.state() == applied_all(old(self).state(), pairs@.take(i as int), dead),
            decreases pairs@.len() - i,
        {
            proof {
                assert(pairs@.take(i + 1).drop_last() =~= pairs@.take(i as int));
            }
            let (k, ts) = pairs[i];
            if dead {
                self.set.delete(k, ts);
            } else {
                self.set.insert(k, ts);
            }
            i = i + 1;
        }
        assert(pairs@.take(pairs@.len() as int) =~= pairs@);
    }

    /// Inserts every `(key, ts)` of `pairs`, in order.
    pub fn multi_put(&mut self, pairs: &Vec<(u64, Hlc)>, wall: u64)
        requires
            old(self).wf(),
        ensures
            final(self).wf(),
            final(self).name() == old(self).name(),
            final(self).state() == applied_all(old(self).state(), pairs@, false),
            final(self).updated() == later(old(self).updated(), wall),
    {
        self.stamp(wall);
        self.apply_all(pairs, false);
    }

    /// Deletes every `(key, ts)` of `pairs`, in order.
    pub fn multi_del(&mut self, pairs: &Vec<(u64, Hlc)>, wall: u64)
        requires
            old(self).wf(),
        ensures
            final(self).wf(),
            final(self).name() == old(self).name(),
            final(self).state() == applied_all(old(self).state(), pairs@, true),
            final(self).updated() == later(old(self).updated(), wall),
    {
        self.stamp(wall);
        self.apply_all(pairs, true);
    }

    /// The snapshot bytes of the set; decoding them gives the set's state.
    pub fn serialize(&self) -> (r: Vec<u8>)
        requires
            self.wf(),
        ensures
            decode_snapshot(r@) == Some(self.state()),
    {
        self.set.snapshot()
    }

    /// Merges a peer's snapshot of this keyspace, then purges the tombstones
    /// below `horizon`; returns the purged keys with their timestamps.
    pub fn merge(&mut self, peer: &OrSwotSet, horizon: Hlc) -> (r: Vec<(u64, Hlc)>)
        requires
            old(self).wf(),
            peer.wf(),
        ensures
            final(self).wf(),
            final(self).name() == old(self).name(),
            final(self).updated() == old(self).updated(),
            final(self).state() == purged(merged(old(self).state(), peer@), horizon),
            forall|k: u64, t: Hlc| #[trigger] r@.contains((k, t)) <==> purgeable(merged(old(self).state(), peer@).entries, horizon, k)
                && merged(old(self).state(), peer@).entries[k].ts == t,
    {
        complete_keyspace_sync(&mut self.set, peer, horizon)
    }

    /// Purges the tombstones below `horizon`; returns them, for their
    /// metadata to be removed from storage.
    pub fn purge_tombstones(&mut self, horizon: Hlc) -> (r: Vec<(u64, Hlc)>)
        requires
            old(self).wf(),
        ensures
            final(self).wf(),
            final(self).name() == old(self).name(),
            final(self).updated() == old(self).updated(),
            final(self).state() == purged(old(self).state(), horizon),
            forall|k: u64, t: Hlc| #[trigger] r@.contains((k, t)) <==> purgeable(old(self).state().entries, horizon, k)
                && old(self).state().entries[k].ts == t,
    {
        self.set.purge_old_deletes(horizon)
    }
}

/// Storage metadata is written by overwriting `(key, ts, dead)`. When a
/// change carries a timestamp later than any the keyspace holds (as a fresh
/// stamp of the local clock does), writing it to metadata that agreed with the
/// CRDT state and applying it to that state keep the two in agreement.
pub proof fn lemma_metadata_agrees(meta: Map<u64, Stamp>, s: SetState, key: u64, ts: Hlc, dead: bool)
    requires
        meta == s.entries,
        !ts.precedes(s.floor),
        forall|k: u64| #[trigger] s.entries.contains_key(k) ==> stamp_lt(s.entries[k], Stamp { ts, dead }),
    ensures
        applied(s, key, ts, dead).entries == meta.insert(key, Stamp { ts, dead }),
{
}

/// The names of a list of keyspaces.
pub open spec fn names_in(ks: Seq<KeyspaceState>) -> Set<Seq<char>> {
    Set::new(|n: Seq<char>| exists|i: int| 0 <= i < ks.len() && ks[i].name() == n)
}

/// The state of keyspace `n` in a list of keyspaces.
pub open spec fn state_in(ks: Seq<KeyspaceState>, n: Seq<char>) -> SetState {
    ks[choose|i: int| 0 <= i < ks.len() && ks[i].name() == n].state()
}

pub open spec fn distinct_names(ks: Seq<KeyspaceState>) -> bool {
    forall|i: int, j: int| 0 <= i < j < ks.len() ==> ks[i].name() != ks[j].name()
}

proof fn lemma_state_at(ks: Seq<KeyspaceState>, i: int)
    requires
        distinct_names(ks),
        0 <= i < ks.len(),
    ensures
        names_in(ks).contains(ks[i].name()),
        state_in(ks, ks[i].name()) == ks[i].state(),
{
    let n = ks[i].name();
    assert(ks[i].name() == n);
    let j = choose|j: int| 0 <= j < ks.len() && ks[j].name() == n;
    if j < i {
    } else if i < j {
    }
}

/// Replacing the keyspace at index `i` by one of the same name changes the
/// state of that name only.
proof fn lemma_replace_one(mid: Seq<KeyspaceState>, new: Seq<KeyspaceState>, i: int)
    requires
        distinct_names(mid),
        new.len() == mid.len(),
        0 <= i < mid.len(),
        new[i].name() == mid[i].name(),
        forall|a: int| 0 <= a < new.len() && a != i ==> new[a] == mid[a],
    ensures
        distinct_names(new),
        names_in(new) == names_in(mid),
        state_in(new, mid[i].name()) == new[i].state(),
        forall|n: Seq<char>| n != mid[i].name() && names_in(mid).contains(n) ==> state_in(new, n) == state_in(mid, n),
{
    assert forall|a: int, b: int| 0 <= a < b < new.len() implies new[a].name() != new[b].name() by {
        if a != i && b != i {
            assert(new[a] == mid[a] && new[b] == mid[b]);
        } else if a == i {
            assert(new[b] == mid[b]);
        } else {
            assert(new[a] == mid[a]);
        }
    }
    assert(names_in(new) =~= names_in(mid)) by {
        assert forall|n: Seq<char>| names_in(new).contains(n) <==> names_in(mid).contains(n) by {
            if names_in(new).contains(n) {
                let j = choose|j: int| 0 <= j < new.len() && new[j].name() == n;
                if j != i {
                    assert(new[j] == mid[j]);
                }
                assert(mid[j].name() == n);
            }
            if names_in(mid).contains(n) {
                let j = choose|j: int| 0 <= j < mid.len() && mid[j].name() == n;
                if j != i {
                    assert(new[j] == mid[j]);
                }
                assert(new[j].name() == n);
            }
        }
    }
    lemma_state_at(new, i);
    assert forall|n: Seq<char>| n != mid[i].name() && names_in(mid).contains(n) implies state_in(new, n) == state_in(mid, n) by {
        let j = choose|j: int| 0 <= j < mid.len() && mid[j].name() == n;
        assert(j != i);
        assert(new[j] == mid[j]);
        lemma_state_at(mid, j);
        lemma_state_at(new, j);
    }
}

/// The keyspaces of a node, with distinct names, and for each the wall-clock
/// time of its last change.
pub struct KeyspaceGroup {
    keyspaces: Vec<KeyspaceState>,
    counters: KeyspaceCounters,
}

impl KeyspaceGroup {
    pub closed spec fn wf(&self) -> bool {
        &&& distinct_names(self.keyspaces@)
        &&& forall|i: int| 0 <= i < self.keyspaces@.len() ==> #[trigger] self.keyspaces@[i].wf()
        &&& self.counters.wf()
        &&& forall|n: Seq<char>| #[trigger] self.counters.map().contains_key(n) <==> names_in(self.keyspaces@).contains(n)
    }

    /// The names of the keyspaces.
    pub closed spec fn names(&self) -> Set<Seq<char>> {
        names_in(self.keyspaces@)
    }

    /// The state of keyspace `n` (meaningful when `n` is among the names).
    pub closed spec fn state_of(&self, n: Seq<char>) -> SetState {
        state_in(self.keyspaces@, n)
    }

    /// The counters of last change, by keyspace name.
    pub closed spec fn counter_map(&self) -> Map<Seq<char>, u64> {
        self.counters.map()
    }

    /// The state keyspace `n` has before a change: its own, or an empty one.
    pub open spec fn start_of(&self, n: Seq<char>) -> SetState {
        if self.names().contains(n) {
            self.state_of(n)
        } else {
            OrSwotSet::empty_state()
        }
    }

    pub fn new() -> (r: KeyspaceGroup)
        ensures
            r.wf(),
            r.names() == Set::<Seq<char>>::empty(),
            r.counter_map() == Map::<Seq<char>, u64>::empty(),
    {
        let r = KeyspaceGroup { keyspaces: Vec::new(), counters: KeyspaceCounters::new() };
        assert(r.names() =~= Set::<Seq<char>>::empty());
        assert(names_in(r.keyspaces@) =~= Set::<Seq<char>>::empty());
        r
    }

    fn index_of(&self, name: &str) -> (r: Option<usize>)
        requires
            self.wf(),
        ensures
            r matches Some(i) ==> i < self.keyspaces@.len() && self.keyspaces@[i as int].name() == name@,
            r is None ==> !self.names().contains(name@),
    {
        let target = name.to_owned();
        let mut i: usize = 0;
        while i < self.keyspaces.len()
            invariant
                target@ == name@,
                0 <= i <= self.keyspaces@.len(),
                forall|j: int| 0 <= j < i ==> self.keyspaces@[j].name() != name@,
            decreases self.keyspaces@.len() - i,
        {
            if self.keyspaces[i].name == target {
                return Some(i);
            }
            i = i + 1;
        }
        None
    }

    /// The keyspace named `name`, if there is one.
    pub fn get_keyspace(&self, name: &str) -> (r: Option<&KeyspaceState>)
        requires
            self.wf(),
        ensures
            r is Some <==> self.names().contains(name@),
            r matches Some(ks) ==> ks.name() == name@ && ks.state() == self.state_of(name@) && ks.wf(),
    {
        match self.index_of(name) {
            Some(i) => {
                proof {
                    lemma_state_at(self.keyspaces@, i as int);
                }
                Some(&self.keyspaces[i])
            },
            None => None,
        }
    }

    /// Adds keyspace `name` holding `set`, replacing one of that name.
    pub fn add_state(&mut self, name: &str, set: OrSwotSet)
        requires
            old(self).wf(),
            set.wf(),
        ensures
            final(self).wf(),
            final(self).names() == old(self).names().insert(name@),
            final(self).state_of(name@) == set@,
            forall|n: Seq<char>| n != name@ && old(self).names().contains(n) ==> final(self).state_of(n) == old(self).state_of(n),
            final(self).counter_map() == old(self).counter_map().insert(name@, 0),
    {
        let ks = KeyspaceState::spawn(name, set);
        let ghost old_ks = self.keyspaces@;
        match self.index_of(name) {
            Some(i) => {
                self.keyspaces.set(i, ks);
                proof {
                    lemma_replace_one(old_ks, self.keyspaces@, i as int);
                    assert(old(self).names() =~= old(self).names().insert(name@)) by {
                        lemma_state_at(old_ks, i as int);
                    }
                }
            },
            None => {
                self.keyspaces.push(ks);
                proof {
                    let new = self.keyspaces@;
                    let last = new.len() - 1;
                    assert forall|a: int, b: int| 0 <= a < b < new.len() implies new[a].name() != new[b].name() by {
                        if b == last {
                            assert(old_ks[a] == new[a]);
                            assert(names_in(old_ks).contains(new[a].name()));
                        } else {
                            assert(old_ks[a] == new[a] && old_ks[b] == new[b]);
                        }
                    }
                    assert(names_in(new) =~= names_in(old_ks).insert(name@)) by {
                        assert forall|n: Seq<char>| names_in(new).contains(n) <==> names_in(old_ks).insert(name@).contains(n) by {
                            if names_in(new).contains(n) {
                                let j = choose|j: int| 0 <= j < new.len() && new[j].name() == n;
                                if j < last {
                                    assert(old_ks[j] == new[j]);
                                }
                            }
                            if names_in(old_ks).contains(n) {
                                let j = choose|j: int| 0 <= j < old_ks.len() && old_ks[j].name() == n;
                                assert(new[j] == old_ks[j]);
                            }
                            if n == name@ {
                                assert(new[last].name() == n);
                            }
                        }
                    }
                    lemma_state_at(new, last);
                    assert forall|n: Seq<char>| n != name@ && names_in(old_ks).contains(n) implies state_in(new, n) == state_in(old_ks, n) by {
                        let j = choose|j: int| 0 <= j < old_ks.len() && old_ks[j].name() == n;
                        assert(new[j] == old_ks[j]);
                        lemma_state_at(old_ks, j);
                        lemma_state_at(new, j);
                    }
                }
            },
        }
        self.counters.set(name, 0);
    }

    /// Loads keyspaces, each as `add_state` would: a name given twice keeps
    /// its later set; keyspaces not named keep their state and counter.
    #[verifier::rlimit(80)]
    pub fn load_states(&mut self, states: Vec<(String, OrSwotSet)>)
        requires
            old(self).wf(),
            forall|i: int| 0 <= i < states@.len() ==> (#[trigger] states@[i]).1.wf(),
        ensures
            final(self).wf(),
            forall|n: Seq<char>| #[trigger] final(self).names().contains(n) <==> old(self).names().contains(n)
                || !unnamed(states@, n, states@.len() as int),
            forall|j: int| #[trigger] last_named(states@, j, states@.len() as int) ==> final(self).state_of(states@[j].0@) == states@[j].1@
                && final(self).counter_map().contains_key(states@[j].0@) && final(self).counter_map()[states@[j].0@] == 0,
            forall|n: Seq<char>| #[trigger] unnamed(states@, n, states@.len() as int) ==> kept(*old(self), *final(self), n),
    {
        let mut i: usize = 0;
        while i < states.len()
            invariant
                self.wf(),
                0 <= i <= states@.len(),
                forall|j: int| 0 <= j < states@.len() ==> (#[trigger] states@[j]).1.wf(),
                forall|n: Seq<char>| #[trigger] self.names().contains(n) <==> old(self).names().contains(n)
                    || !unnamed(states@, n, i as int),
                forall|j: int| #[trigger] last_named(states@, j, i as int) ==> self.state_of(states@[j].0@) == states@[j].1@
                    && self.counter_map().contains_key(states@[j].0@) && self.counter_map()[states@[j].0@] == 0,
                forall|n: Seq<char>| #[trigger] unnamed(states@, n, i as int) ==> kept(*old(self), *self, n),
            decreases states@.len() - i,
        {
            let ghost pre = *self;
            let (name, set) = &states[i];
            let set = set.clone_set();
            self.add_state(name.as_str(), set);
            proof {
                let nm = states@[i as int].0@;
                let ss = states@;
                let i1 = i + 1;
                assert(name@ == nm);
                assert forall|n: Seq<char>| #[trigger] self.names().contains(n) <==> old(self).names().contains(n)
                    || !unnamed(ss, n, i1) by {
                    if n != nm {
                        if !unnamed(ss, n, i1) {
                            let j = choose|j: int| 0 <= j < i1 && ss[j].0@ == n;
                            assert(!unnamed(ss, n, i as int));
                        }
                        if !unnamed(ss, n, i as int) {
                            let j = choose|j: int| 0 <= j < i && ss[j].0@ == n;
                            assert(!unnamed(ss, n, i1));
                        }
                        assert(pre.names().contains(n) == self.names().contains(n));
                    } else {
                        assert(!unnamed(ss, n, i1));
                    }
                }
                assert forall|j: int| #[trigger] last_named(ss, j, i1) implies self.state_of(ss[j].0@) == ss[j].1@
                    && self.counter_map().contains_key(ss[j].0@) && self.counter_map()[ss[j].0@] == 0 by {
                    if j < i {
                        assert(ss[j].0@ != nm);
                        assert(last_named(ss, j, i as int));
                        assert(pre.names().contains(ss[j].0@));
                    }
                }
                assert forall|n: Seq<char>| #[trigger] unnamed(ss, n, i1) implies kept(*old(self), *self, n) by {
                    assert(ss[i as int].0@ != n);
                    assert(unnamed(ss, n, i as int));
                    assert(kept(*old(self), pre, n));
                    if old(self).names().contains(n) {
                        assert(pre.names().contains(n));
                    }
                }
            }
            i = i + 1;
        }
    }

    /// The index of keyspace `name`, created empty when missing.
    fn get_or_create(&mut self, name: &str) -> (r: usize)
        requires
            old(self).wf(),
        ensures
            final(self).wf(),
            r < final(self).keyspaces@.len(),
            final(self).keyspaces@[r as int].name() == name@,
            final(self).names() == old(self).names().insert(name@),
            final(self).state_of(name@) == old(self).start_of(name@),
            forall|n: Seq<char>| n != name@ && old(self).names().contains(n) ==> final(self).state_of(n) == old(self).state_of(n),
            old(self).names().contains(name@) ==> final(self).counter_map() == old(self).counter_map(),
            !old(self).names().contains(name@) ==> final(self).counter_map() == old(self).counter_map().insert(name@, 0),
    {
        match self.index_of(name) {
            Some(i) => {
                proof {
                    lemma_state_at(self.keyspaces@, i as int);
                    assert(self.names() =~= self.names().insert(name@));
                }
                i
            },
            None => {
                self.add_state(name, OrSwotSet::new());
                let i = self.index_of(name).unwrap();
                i
            },
        }
    }

    /// Creates keyspace `name` empty, with counter 0, unless it exists; an
    /// existing keyspace and its counter are kept, and so are all others.
    pub fn get_or_create_keyspace(&mut self, name: &str)
        requires
            old(self).wf(),
        ensures
            final(self).wf(),
            final(self).names() == old(self).names().insert(name@),
            final(self).state_of(name@) == old(self).start_of(name@),
            forall|n: Seq<char>| n != name@ && old(self).names().contains(n) ==> final(self).state_of(n) == old(self).state_of(n),
            old(self).names().contains(name@) ==> final(self).counter_map() == old(self).counter_map(),
            !old(self).names().contains(name@) ==> final(self).counter_map() == old(self).counter_map().insert(name@, 0),
    {
        self.get_or_create(name);
    }

    /// Applies one change to keyspace `name` (created when missing) and raises
    /// its counter to the wall reading: the common part of the mutation paths.
    fn mutate(&mut self, name: &str, op: Change, wall: u64)
        requires
            old(self).wf(),
        ensures
            final(self).wf(),
            final(self).names() == old(self).names().insert(name@),
            final(self).state_of(name@) == change_applied(old(self).start_of(name@), op),
            forall|n: Seq<char>| n != name@ && old(self).names().contains(n) ==> final(self).state_of(n) == old(self).state_of(n),
            final(self).counter_map() == old(self).counter_map().insert(
                name@,
                later(counter_of(old(self).counter_map(), name@), wall),
            ),
    {
        let i = self.get_or_create(name);
        let prev = self.counters.get(name);
        let ghost mid = self.keyspaces@;
        let mut ks = self.keyspaces.remove(i);
        match op {
            Change::Put(key, ts) => ks.put(key, ts, wall),
            Change::Del(key, ts) => ks.del(key, ts, wall),
            Change::PutAll(pairs) => ks.multi_put(&pairs, wall),
            Change::DelAll(pairs) => ks.multi_del(&pairs, wall),
        }
        self.keyspaces.insert(i, ks);
        let now = if prev > wall { prev } else { wall };
        let ghost c0 = self.counters.map();
        self.counters.set(name, now);
        proof {
            assert forall|a: int| 0 <= a < self.keyspaces@.len() && a != i implies #[trigger] self.keyspaces@[a] == mid[a] by {}
            lemma_replace_one(mid, self.keyspaces@, i as int);
            assert(c0.contains_key(name@));
            assert(self.counter_map() =~= old(self).counter_map().insert(name@, later(counter_of(old(self).counter_map(), name@), wall)));
        }
    }

    /// Inserts `key` at `ts` into keyspace `name` (created when missing) and
    /// raises its counter to the wall reading `wall`.
    pub fn put(&mut self, name: &str, key: u64, ts: Hlc, wall: u64)
        requires
            old(self).wf(),
        ensures
            final(self).wf(),
            final(self).names() == old(self).names().insert(name@),
            final(self).state_of(name@) == applied(old(self).start_of(name@), key, ts, false),
            forall|n: Seq<char>| n != name@ && old(self).names().contains(n) ==> final(self).state_of(n) == old(self).state_of(n),
            final(self).counter_map() == old(self).counter_map().insert(name@, later(counter_of(old(self).counter_map(), name@), wall)),
    {
        self.mutate(name, Change::Put(key, ts), wall);
    }

    /// Deletes `key` at `ts` in keyspace `name` (created when missing) and
    /// raises its counter to the wall reading `wall`.
    pub fn del(&mut self, name: &str, key: u64, ts: Hlc, wall: u64)
        requires
            old(self).wf(),
        ensures
            final(self).wf(),
            final(self).names() == old(self).names().insert(name@),
            final(self).state_of(name@) == applied(old(self).start_of(name@), key, ts, true),
            forall|n: Seq<char>| n != name@ && old(self).names().contains(n) ==> final(self).state_of(n) == old(self).state_of(n),
            final(self).counter_map() == old(self).counter_map().insert(name@, later(counter_of(old(self).counter_map(), name@), wall)),
    {
        self.mutate(name, Change::Del(key, ts), wall);
    }

    /// Inserts every `(key, ts)` of `pairs` into keyspace `name`, in order.
    pub fn multi_put(&mut self, name: &str, pairs: Vec<(u64, Hlc)>, wall: u64)
        requires
            old(self).wf(),
        ensures
            final(self).wf(),
            final(self).names() == old(self).names().insert(name@),
            final(self).state_of(name@) == applied_all(old(self).start_of(name@), pairs@, false),
            forall|n: Seq<char>| n != name@ && old(self).names().contains(n) ==> final(self).state_of(n) == old(self).state_of(n),
            final(self).counter_map() == old(self).counter_map().insert(name@, later(counter_of(old(self).counter_map(), name@), wall)),
    {
        self.mutate(name, Change::PutAll(pairs), wall);
    }

    /// Deletes every `(key, ts)` of `pairs` in keyspace `name`, in order.
    pub fn multi_del(&mut self, name: &str, pairs: Vec<(u64, Hlc)>, wall: u64)
        requires
            old(self).wf(),
        ensures
            final(self).wf(),
            final(self).names() == old(self).names().insert(name@),
            final(self).state_of(name@) == applied_all(old(self).start_of(name@), pairs@, true),
            forall|n: Seq<char>| n != name@ && old(self).names().contains(n) ==> final(self).state_of(n) == old(self).state_of(n),
            final(self).counter_map() == old(self).counter_map().insert(name@, later(counter_of(old(self).counter_map(), name@), wall)),
    {
        self.mutate(name, Change::DelAll(pairs), wall);
    }

    /// Raises the counter of keyspace `name` (created empty when missing) to
    /// the wall reading `wall`, before a change is written to storage.
    pub fn touch(&mut self, name: &str, wall: u64)
        requires
            old(self).wf(),
        ensures
            final(self).wf(),
            final(self).names() == old(self).names().insert(name@),
            final(self).state_of(name@) == old(self).start_of(name@),
            forall|n: Seq<char>| n != name@ && old(self).names().contains(n) ==> final(self).state_of(n) == old(self).state_of(n),
            final(self).counter_map() == old(self).counter_map().insert(name@, later(counter_of(old(self).counter_map(), name@), wall)),
    {
        self.get_or_create(name);
        let prev = self.counters.get(name);
        let now = if prev > wall { prev } else { wall };
        let ghost c0 = self.counters.map();
        self.counters.set(name, now);
        proof {
            assert(c0.contains_key(name@));
            assert(self.counter_map() =~= old(self).counter_map().insert(name@, later(counter_of(old(self).counter_map(), name@), wall)));
        }
    }

    /// Whether an insert (`dead == false`) or delete of `key` at `ts` would
    /// change keyspace `name`: the check made before a replicated change is
    /// written to storage.
    pub fn wins(&self, name: &str, key: u64, ts: Hlc, dead: bool) -> (r: bool)
        requires
            self.wf(),
        ensures
            r == newer_in(self.start_of(name@), key, Stamp { ts, dead }),
    {
        match self.get_keyspace(name) {
            Some(ks) => ks.set().would_win(key, Stamp { ts, dead }),
            None => {
                let e = OrSwotSet::new();
                e.would_win(key, Stamp { ts, dead })
            },
        }
    }

    /// The pairs of a replicated batch that would change keyspace `name`, in
    /// order.
    pub fn winning_pairs(&self, name: &str, pairs: &Vec<(u64, Hlc)>, dead: bool) -> (r: Vec<(u64, Hlc)>)
        requires
            self.wf(),
        ensures
            r@ == winning(self.start_of(name@), pairs@, dead),
    {
        let mut out: Vec<(u64, Hlc)> = Vec::new();
        let mut i: usize = 0;
        while i < pairs.len()
            invariant
                self.wf(),
                0 <= i <= pairs@.len(),
                out@ == winning(self.start_of(name@), pairs@.take(i as int), dead),
            decreases pairs@.len() - i,
        {
            proof {
                assert(pairs@.take(i + 1).drop_last() =~= pairs@.take(i as int));
            }
            let (k, ts) = pairs[i];
            if self.wins(name, k, ts, dead) {
                out.push((k, ts));
            }
            i = i + 1;
        }
        assert(pairs@.take(pairs@.len() as int) =~= pairs@);
        out
    }

    /// Merges a peer's snapshot into keyspace `name` (created when missing) and
    /// purges the tombstones below `horizon`; returns the purged keys with
    /// their timestamps. The counter of last change is left as it is.
    pub fn merge_keyspace(&mut self, name: &str, peer: &OrSwotSet, horizon: Hlc) -> (r: Vec<(u64, Hlc)>)
        requires
            old(self).wf(),
            peer.wf(),
        ensures
            final(self).wf(),
            final(self).names() == old(self).names().insert(name@),
            final(self).state_of(name@) == purged(merged(old(self).start_of(name@), peer@), horizon),
            forall|n: Seq<char>| n != name@ && old(self).names().contains(n) ==> final(self).state_of(n) == old(self).state_of(n),
            forall|k: u64, t: Hlc| #[trigger] r@.contains((k, t)) <==> purgeable(merged(old(self).start_of(name@), peer@).entries, horizon, k)
                && merged(old(self).start_of(name@), peer@).entries[k].ts == t,
    {
        let i = self.get_or_create(name);
        let ghost mid = self.keyspaces@;
        let mut ks = self.keyspaces.remove(i);
        proof {
            lemma_state_at(mid, i as int);
        }
        let purged_keys = ks.merge(peer, horizon);
        self.keyspaces.insert(i, ks);
        proof {
            assert forall|a: int| 0 <= a < self.keyspaces@.len() && a != i implies #[trigger] self.keyspaces@[a] == mid[a] by {}
            lemma_replace_one(mid, self.keyspaces@, i as int);
        }
        purged_keys
    }

    /// Purges the tombstones below `horizon` in keyspace `name`, if there is
    /// one; returns the purged keys with their timestamps.
    pub fn purge_keyspace(&mut self, name: &str, horizon: Hlc) -> (r: Vec<(u64, Hlc)>)
        requires
            old(self).wf(),
        ensures
            final(self).wf(),
            final(self).names() == old(self).names(),
            old(self).names().contains(name@) ==> final(self).state_of(name@) == purged(old(self).state_of(name@), horizon),
            forall|n: Seq<char>| n != name@ && old(self).names().contains(n) ==> final(self).state_of(n) == old(self).state_of(n),
            old(self).names().contains(name@) ==> forall|k: u64, t: Hlc| #[trigger] r@.contains((k, t)) <==> purgeable(old(self).state_of(name@).entries, horizon, k)
                && old(self).state_of(name@).entries[k].ts == t,
            !old(self).names().contains(name@) ==> r@.len() == 0,
    {
        match self.index_of(name) {
            Some(i) => {
                let ghost mid = self.keyspaces@;
                proof {
                    lemma_state_at(mid, i as int);
                }
                let mut ks = self.keyspaces.remove(i);
                let purged_keys = ks.purge_tombstones(horizon);
                self.keyspaces.insert(i, ks);
                proof {
                    assert forall|a: int| 0 <= a < self.keyspaces@.len() && a != i implies #[trigger] self.keyspaces@[a] == mid[a] by {}
                    lemma_replace_one(mid, self.keyspaces@, i as int);
                }
                purged_keys
            },
            None => Vec::new(),
        }
    }

    /// The encoded counters of last change; decoding them gives the counters.
    pub fn serialize_keyspace_counters(&self) -> (r: Vec<u8>)
        requires
            self.wf(),
        ensures
            decode_counters(r@) == Some(self.counter_map()),
    {
        self.counters.encode()
    }

    /// The snapshot bytes of keyspace `name`, if there is one.
    pub fn keyspace_snapshot(&self, name: &str) -> (r: Option<Vec<u8>>)
        requires
            self.wf(),
        ensures
            r is Some <==> self.names().contains(name@),
            r matches Some(b) ==> decode_snapshot(b@) == Some(self.state_of(name@)),
    {
        match self.get_keyspace(name) {
            Some(ks) => Some(ks.serialize()),
            None => None,
        }
    }

    /// Decodes a peer's snapshot of a keyspace.
    pub fn load_snapshot(bytes: &[u8]) -> (r: Result<OrSwotSet, CorruptedState>)
        ensures
            r is Ok <==> decode_snapshot(bytes@) is Some,
            r matches Ok(s) ==> s.wf() && s@ == decode_snapshot(bytes@)->Some_0,
    {
        OrSwotSet::load(bytes)
    }
}

/// No entry of `ss` before `upto` is named `n`.
pub open spec fn unnamed(ss: Seq<(String, OrSwotSet)>, n: Seq<char>, upto: int) -> bool {
    forall|j: int| 0 <= j < upto ==> ss[j].0@ != n
}

/// Entry `j` of `ss` is the last one before `upto` with its name.
pub open spec fn last_named(ss: Seq<(String, OrSwotSet)>, j: int, upto: int) -> bool {
    0 <= j < upto && forall|j2: int| j < j2 < upto ==> ss[j2].0@ != ss[j].0@
}

/// Keyspace `n` has the same state (if it existed) and counter in `b` as in `a`.
pub open spec fn kept(a: KeyspaceGroup, b: KeyspaceGroup, n: Seq<char>) -> bool {
    &&& (a.names().contains(n) ==> b.state_of(n) == a.state_of(n))
    &&& (b.counter_map().contains_key(n) <==> a.counter_map().contains_key(n))
    &&& (a.counter_map().contains_key(n) ==> b.counter_map()[n] == a.counter_map()[n])
}

/// A change to one keyspace.
pub enum Change {
    Put(u64, Hlc),
    Del(u64, Hlc),
    PutAll(Vec<(u64, Hlc)>),
    DelAll(Vec<(u64, Hlc)>),
}

/// The state after a change.
pub open spec fn change_applied(s: SetState, op: Change) -> SetState {
    match op {
        Change::Put(k, t) => applied(s, k, t, false),
        Change::Del(k, t) => applied(s, k, t, true),
        Change::PutAll(ps) => applied_all(s, ps@, false),
        Change::DelAll(ps) => applied_all(s, ps@, true),
    }
}

} // verus!
