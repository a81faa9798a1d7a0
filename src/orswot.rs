use crate::codec::{
    get_hlc, get_u64, hlc_bytes, hlc_from, lemma_hlc_bytes, put_hlc, put_u64, CorruptedState,
};
use crate::hlc::{Hlc, lemma_precedes_total};
use vstd::bytes::*;
use vstd::prelude::*;

verus! {

/// The causal stamp stored for one key: its timestamp and whether the key is
/// deleted (a tombstone).
#[derive(Clone, Copy, Debug, PartialEq, Eq, Structural)]
pub struct Stamp {
    pub ts: Hlc,
    pub dead: bool,
}

/// Strict dominance between stamps: the later timestamp wins; on equal
/// timestamps a tombstone dominates a live entry.
pub open spec fn stamp_lt(a: Stamp, b: Stamp) -> bool {
    a.ts.precedes(b.ts) || (a.ts == b.ts && !a.dead && b.dead)
}

/// The dominating one of two stamps.
pub open spec fn stamp_max(a: Stamp, b: Stamp) -> Stamp {
    if stamp_lt(a, b) {
        b
    } else {
        a
    }
}

pub open spec fn hlc_max(a: Hlc, b: Hlc) -> Hlc {
    if a.precedes(b) {
        b
    } else {
        a
    }
}

/// One key of the set with its stamp.
#[derive(Clone, Copy, Debug, PartialEq, Eq, Structural)]
pub struct Entry {
    pub key: u64,
    pub stamp: Stamp,
}

/// The abstract state of a set: a stamp per key, and the purge horizon below
/// which operations are ignored because their tombstones may be gone.
pub struct SetState {
    pub entries: Map<u64, Stamp>,
    pub floor: Hlc,
}

/// `m` after offering stamp `st` for key `k`: kept unless it dominates.
pub open spec fn absorbed(m: Map<u64, Stamp>, k: u64, st: Stamp) -> Map<u64, Stamp> {
    if m.contains_key(k) && !stamp_lt(m[k], st) {
        m
    } else {
        m.insert(k, st)
    }
}

/// Pointwise dominance of two stamp maps.
pub open spec fn join(a: Map<u64, Stamp>, b: Map<u64, Stamp>) -> Map<u64, Stamp> {
    Map::new(
        |k: u64| a.contains_key(k) || b.contains_key(k),
        |k: u64|
            if !a.contains_key(k) {
                b[k]
            } else if !b.contains_key(k) {
                a[k]
            } else {
                stamp_max(a[k], b[k])
            },
    )
}

/// The state after an insert (`dead == false`) or a delete (`dead == true`)
/// of key `k` at `ts`.
pub open spec fn applied(s: SetState, k: u64, ts: Hlc, dead: bool) -> SetState {
    if ts.precedes(s.floor) {
        s
    } else {
        SetState { entries: absorbed(s.entries, k, Stamp { ts, dead }), floor: s.floor }
    }
}

/// The entries of `m` that are not below the horizon `f`.
pub open spec fn admitted(m: Map<u64, Stamp>, f: Hlc) -> Map<u64, Stamp> {
    Map::new(|k: u64| m.contains_key(k) && !m[k].ts.precedes(f), |k: u64| m[k])
}

/// The state that merging `b` into `a` gives: pointwise dominance, where
/// entries of `b` below `a`'s horizon are ignored as an operation below it
/// would be; the horizon stays `a`'s own.
pub open spec fn merged(a: SetState, b: SetState) -> SetState {
    SetState { entries: join(a.entries, admitted(b.entries, a.floor)), floor: a.floor }
}

/// Whether the stamp of `k` is a tombstone below the horizon `h`.
pub open spec fn purgeable(m: Map<u64, Stamp>, h: Hlc, k: u64) -> bool {
    m.contains_key(k) && m[k].dead && m[k].ts.precedes(h)
}

/// The state after purging the tombstones below `h`; the horizon rises to
/// `h` if it was lower, so that no later operation below it applies.
pub open spec fn purged(s: SetState, h: Hlc) -> SetState {
    SetState {
        entries: Map::new(|k: u64| s.entries.contains_key(k) && !purgeable(s.entries, h, k), |k: u64| s.entries[k]),
        floor: hlc_max(s.floor, h),
    }
}

/// Whether the stamp `st` for `k` would win against what `s` holds.
pub open spec fn newer_in(s: SetState, k: u64, st: Stamp) -> bool {
    !st.ts.precedes(s.floor) && (!s.entries.contains_key(k) || stamp_lt(s.entries[k], st))
}

/// The map that offering the entries of `es` one after another to an empty
/// map builds.
pub open spec fn fold_entries(es: Seq<Entry>) -> Map<u64, Stamp>
    decreases es.len(),
{
    if es.len() == 0 {
        Map::empty()
    } else {
        absorbed(fold_entries(es.drop_last()), es.last().key, es.last().stamp)
    }
}


/// The 25 bytes of an entry: key, timestamp, and 1 for a tombstone or 0.
pub open spec fn entry_bytes(e: Entry) -> Seq<u8> {
    spec_u64_to_le_bytes(e.key) + hlc_bytes(e.stamp.ts) + seq![if e.stamp.dead { 1u8 } else { 0u8 }]
}

pub open spec fn entries_bytes(es: Seq<Entry>) -> Seq<u8>
    decreases es.len(),
{
    if es.len() == 0 {
        Seq::empty()
    } else {
        entries_bytes(es.drop_last()) + entry_bytes(es.last())
    }
}

/// A snapshot: the horizon, the number of entries, then the entries.
pub open spec fn snapshot_bytes(floor: Hlc, es: Seq<Entry>) -> Seq<u8> {
    hlc_bytes(floor) + spec_u64_to_le_bytes(es.len() as u64) + entries_bytes(es)
}

/// The entry that 25 bytes stand for, if the tombstone byte is 0 or 1.
pub open spec fn parse_entry(b: Seq<u8>) -> Option<Entry> {
    if b[24] > 1 {
        None
    } else {
        Some(
            Entry {
                key: spec_u64_from_le_bytes(b.subrange(0, 8)),
                stamp: Stamp { ts: hlc_from(b.subrange(8, 24)), dead: b[24] == 1 },
            },
        )
    }
}

/// The `n` entries that `b` stands for, if it holds exactly that many.
pub open spec fn parse_entries(b: Seq<u8>, n: nat) -> Option<Seq<Entry>>
    decreases n,
{
    if n == 0 {
        if b.len() == 0 {
            Some(Seq::empty())
        } else {
            None
        }
    } else if b.len() < 25 {
        None
    } else {
        match parse_entries(b.subrange(0, b.len() - 25), (n - 1) as nat) {
            Some(es) => match parse_entry(b.subrange(b.len() - 25, b.len() as int)) {
                Some(e) => Some(es.push(e)),
                None => None,
            },
            None => None,
        }
    }
}

/// The state a snapshot stands for, if it is well formed.
pub open spec fn decode_snapshot(b: Seq<u8>) -> Option<SetState> {
    if b.len() < 24 {
        None
    } else {
        let n = spec_u64_from_le_bytes(b.subrange(16, 24));
        match parse_entries(b.subrange(24, b.len() as int), n as nat) {
            Some(es) => Some(SetState { entries: fold_entries(es), floor: hlc_from(b.subrange(0, 16)) }),
            None => None,
        }
    }
}

proof fn lemma_entry_bytes(e: Entry)
    ensures
        entry_bytes(e).len() == 25,
        parse_entry(entry_bytes(e)) == Some(e),
{
    lemma_auto_spec_u64_to_from_le_bytes();
    lemma_hlc_bytes(e.stamp.ts);
    let b = entry_bytes(e);
    assert(b.subrange(0, 8) =~= spec_u64_to_le_bytes(e.key));
    assert(b.subrange(8, 24) =~= hlc_bytes(e.stamp.ts));
}

proof fn lemma_entries_bytes(es: Seq<Entry>)
    ensures
        entries_bytes(es).len() == 25 * es.len(),
        parse_entries(entries_bytes(es), es.len()) == Some(es),
    decreases es.len(),
{
    if es.len() > 0 {
        lemma_entries_bytes(es.drop_last());
        lemma_entry_bytes(es.last());
        let b = entries_bytes(es);
        assert(b.subrange(0, b.len() - 25) =~= entries_bytes(es.drop_last()));
        assert(b.subrange(b.len() - 25, b.len() as int) =~= entry_bytes(es.last()));
        assert(es.drop_last().push(es.last()) =~= es);
    }
}

proof fn lemma_join_empty(m: Map<u64, Stamp>)
    ensures
        join(Map::empty(), m) == m,
{
    assert(join(Map::empty(), m) =~= m);
}

/// The map that offering the entries of `es` not below `f`, one after
/// another, to an empty map builds.
pub open spec fn fold_admitted(es: Seq<Entry>, f: Hlc) -> Map<u64, Stamp>
    decreases es.len(),
{
    if es.len() == 0 {
        Map::empty()
    } else if es.last().stamp.ts.precedes(f) {
        fold_admitted(es.drop_last(), f)
    } else {
        absorbed(fold_admitted(es.drop_last(), f), es.last().key, es.last().stamp)
    }
}

proof fn lemma_fold_admitted(es: Seq<Entry>, f: Hlc)
    ensures
        fold_admitted(es, f) == admitted(fold_entries(es), f),
    decreases es.len(),
{
    if es.len() == 0 {
        assert(admitted(Map::<u64, Stamp>::empty(), f) =~= Map::<u64, Stamp>::empty());
    } else {
        lemma_fold_admitted(es.drop_last(), f);
        let m = fold_entries(es.drop_last());
        let e = es.last();
        if m.contains_key(e.key) {
            lemma_stamp_total(m[e.key], e.stamp);
            lemma_precedes_total(m[e.key].ts, e.stamp.ts);
            lemma_precedes_total(m[e.key].ts, f);
            lemma_precedes_total(e.stamp.ts, f);
        }
        assert(fold_admitted(es, f) =~= admitted(fold_entries(es), f));
    }
}

/// Filtering by a horizon commutes with pointwise dominance.
proof fn lemma_admitted_join(x: Map<u64, Stamp>, y: Map<u64, Stamp>, f: Hlc)
    ensures
        admitted(join(x, y), f) == join(admitted(x, f), admitted(y, f)),
{
    assert forall|k: u64| x.contains_key(k) && y.contains_key(k) implies
        (!#[trigger] stamp_max(x[k], y[k]).ts.precedes(f) <==> (!x[k].ts.precedes(f) || !y[k].ts.precedes(f)))
        && (!x[k].ts.precedes(f) && !y[k].ts.precedes(f) ==> true) by {
        lemma_stamp_total(x[k], y[k]);
        lemma_precedes_total(x[k].ts, y[k].ts);
        lemma_precedes_total(x[k].ts, f);
        lemma_precedes_total(y[k].ts, f);
    }
    assert forall|k: u64| x.contains_key(k) && y.contains_key(k) && !x[k].ts.precedes(f) && y[k].ts.precedes(f)
        implies #[trigger] stamp_max(x[k], y[k]) == x[k] by {
        lemma_stamp_total(x[k], y[k]);
        lemma_precedes_total(x[k].ts, y[k].ts);
        lemma_precedes_total(x[k].ts, f);
        lemma_precedes_total(y[k].ts, f);
    }
    assert forall|k: u64| x.contains_key(k) && y.contains_key(k) && x[k].ts.precedes(f) && !y[k].ts.precedes(f)
        implies #[trigger] stamp_max(x[k], y[k]) == y[k] by {
        lemma_stamp_total(x[k], y[k]);
        lemma_precedes_total(x[k].ts, y[k].ts);
        lemma_precedes_total(x[k].ts, f);
        lemma_precedes_total(y[k].ts, f);
    }
    assert(admitted(join(x, y), f) =~= join(admitted(x, f), admitted(y, f)));
}

pub proof fn lemma_stamp_total(a: Stamp, b: Stamp)
    ensures
        a == b || stamp_lt(a, b) || stamp_lt(b, a),
        !(stamp_lt(a, b) && stamp_lt(b, a)),
        !stamp_lt(a, a),
{
    lemma_precedes_total(a.ts, b.ts);
}

proof fn lemma_stamp_trans(a: Stamp, b: Stamp, c: Stamp)
    requires
        stamp_lt(a, b),
        stamp_lt(b, c),
    ensures
        stamp_lt(a, c),
{
    lemma_precedes_total(a.ts, b.ts);
    lemma_precedes_total(b.ts, c.ts);
    lemma_precedes_total(a.ts, c.ts);
}

/// Offering a stamp to a join is offering it to its right side.
proof fn lemma_join_absorbed(a: Map<u64, Stamp>, b: Map<u64, Stamp>, k: u64, st: Stamp)
    ensures
        join(a, absorbed(b, k, st)) == absorbed(join(a, b), k, st),
{
    if a.contains_key(k) {
        lemma_stamp_total(a[k], st);
        if b.contains_key(k) {
            lemma_stamp_total(a[k], b[k]);
            lemma_stamp_total(b[k], st);
            if stamp_lt(a[k], b[k]) && stamp_lt(b[k], st) {
                lemma_stamp_trans(a[k], b[k], st);
            }
            if stamp_lt(b[k], a[k]) && stamp_lt(st, b[k]) {
                lemma_stamp_trans(st, b[k], a[k]);
            }
        }
    }
    assert(join(a, absorbed(b, k, st)) =~= absorbed(join(a, b), k, st));
}

/// The set: entries with pairwise distinct keys, a purge horizon, and the map
/// the entries stand for.
///
/// Horizon policy: the horizon is raised only by `purge_old_deletes`, to a
/// timestamp that the caller chooses as safe, that is one that every peer's
/// clock is known to have passed and whose earlier state every peer has
/// already exchanged. Tombstones below it are dropped, and any insert, delete
/// or merged entry below it is ignored, so a purged key cannot come back.
/// Merge, commutativity and convergence are therefore stated for replicas
/// that agree on the horizon, over the entries at or above it: entries below
/// it are, by that choice, already held alike by every replica.
pub struct OrSwotSet {
    entries: Vec<Entry>,
    floor: Hlc,
    model: Ghost<Map<u64, Stamp>>,
}

impl View for OrSwotSet {
    type V = SetState;

    closed spec fn view(&self) -> SetState {
        SetState { entries: self.model@, floor: self.floor }
    }
}

impl OrSwotSet {
    /// The entries have distinct keys and stand exactly for the model map.
    pub closed spec fn wf(&self) -> bool {
        &&& forall|i: int, j: int|
            0 <= i < j < self.entries@.len() ==> self.entries@[i].key != self.entries@[j].key
        &&& forall|i: int|
            #![trigger self.entries@[i]]
            0 <= i < self.entries@.len() ==> self.model@.contains_key(self.entries@[i].key)
                && self.model@[self.entries@[i].key] == self.entries@[i].stamp
        &&& forall|k: u64|
            #![trigger self.model@.contains_key(k)]
            self.model@.contains_key(k) ==> exists|i: int|
                0 <= i < self.entries@.len() && self.entries@[i].key == k
    }

    /// The entries in the order they are stored.
    pub closed spec fn entry_seq(&self) -> Seq<Entry> {
        self.entries@
    }

    proof fn lemma_entry_seq(&self)
        requires
            self.wf(),
        ensures
            forall|i: int|
                0 <= i < self.entry_seq().len() ==> #[trigger] self@.entries.contains_key(
                    self.entry_seq()[i].key,
                ) && self@.entries[self.entry_seq()[i].key] == self.entry_seq()[i].stamp,
            forall|k: u64|
                #[trigger] self@.entries.contains_key(k) ==> exists|i: int|
                    0 <= i < self.entry_seq().len() && self.entry_seq()[i].key == k,
            forall|i: int, j: int|
                0 <= i < j < self.entry_seq().len() ==> self.entry_seq()[i].key
                    != self.entry_seq()[j].key,
    {
        assert forall|i: int|
            0 <= i < self.entry_seq().len() implies #[trigger] self@.entries.contains_key(
            self.entry_seq()[i].key,
        ) && self@.entries[self.entry_seq()[i].key] == self.entry_seq()[i].stamp by {
            assert(self.entries@[i] == self.entry_seq()[i]);
        }
        assert forall|k: u64| #[trigger] self@.entries.contains_key(k) implies exists|i: int|
            0 <= i < self.entry_seq().len() && self.entry_seq()[i].key == k by {
            assert(self.model@.contains_key(k));
            let i = choose|i: int| 0 <= i < self.entries@.len() && self.entries@[i].key == k;
            assert(self.entry_seq()[i].key == k);
        }
    }

    /// An empty set whose horizon is the smallest timestamp.
    pub fn new() -> (r: OrSwotSet)
        ensures
            r.wf(),
            r@ == OrSwotSet::empty_state(),
    {
        OrSwotSet {
            entries: Vec::new(),
            floor: Hlc { millis: 0, counter: 0, node: 0 },
            model: Ghost(Map::empty()),
        }
    }

    /// The state of a new set.
    pub open spec fn empty_state() -> SetState {
        SetState { entries: Map::empty(), floor: Hlc { millis: 0, counter: 0, node: 0 } }
    }

    /// A copy of this set.
    pub fn clone_set(&self) -> (r: OrSwotSet)
        requires
            self.wf(),
        ensures
            r.wf(),
            r@ == self@,
    {
        let mut entries: Vec<Entry> = Vec::new();
        let mut i: usize = 0;
        while i < self.entries.len()
            invariant
                0 <= i <= self.entries@.len(),
                entries@ == self.entries@.take(i as int),
            decreases self.entries@.len() - i,
        {
            entries.push(self.entries[i]);
            i = i + 1;
            proof {
                assert(entries@ =~= self.entries@.take(i as int));
            }
        }
        assert(self.entries@.take(self.entries@.len() as int) =~= self.entries@);
        assert(entries@ == self.entries@);
        let r = OrSwotSet { entries, floor: self.floor, model: Ghost(self.model@) };
        assert(r.entries@ == self.entries@);
        r
    }

    /// The number of keys held, tombstones included.
    pub fn len(&self) -> (r: usize)
        requires
            self.wf(),
        ensures
            r == self@.entries.len(),
    {
        proof {
            let ks = Set::new(|i: int| 0 <= i < self.entries@.len());
            assert(self.model@.dom() == ks.map(|i: int| self.entries@[i].key)) by {
                assert forall|k: u64| self.model@.dom().contains(k) implies ks.map(
                    |i: int| self.entries@[i].key,
                ).contains(k) by {
                    let i = choose|i: int| 0 <= i < self.entries@.len() && self.entries@[i].key == k;
                    assert(ks.contains(i));
                }
                assert(self.model@.dom() =~= ks.map(|i: int| self.entries@[i].key));
            }
            vstd::set_lib::lemma_int_range(0, self.entries@.len() as int);
            assert(ks =~= vstd::set_lib::set_int_range(0, self.entries@.len() as int));
            let f = |i: int| self.entries@[i].key;
            assert(vstd::relations::injective_on(f, ks)) by {
                assert forall|i: int, j: int| ks.contains(i) && ks.contains(j) && #[trigger] f(i) == #[trigger] f(j) implies i == j by {
                    if i < j {
                    } else if j < i {
                    }
                }
            }
            vstd::set_lib::lemma_map_size(ks, self.model@.dom(), f);
        }
        self.entries.len()
    }

    /// The horizon below which operations are ignored.
    pub fn floor(&self) -> (r: Hlc)
        ensures
            r == self@.floor,
    {
        self.floor
    }

    fn find(&self, k: u64) -> (r: Option<usize>)
        requires
            self.wf(),
        ensures
            r matches Some(i) ==> i < self.entries@.len() && self.entries@[i as int].key == k,
            r is None ==> !self@.entries.contains_key(k),
    {
        let mut i: usize = 0;
        while i < self.entries.len()
            invariant
                self.wf(),
                0 <= i <= self.entries@.len(),
                forall|j: int| 0 <= j < i ==> self.entries@[j].key != k,
            decreases self.entries@.len() - i,
        {
            if self.entries[i].key == k {
                return Some(i);
            }
            i = i + 1;
        }
        None
    }

    /// The stamp held for `k`, tombstone or not.
    pub fn get(&self, k: u64) -> (r: Option<Stamp>)
        requires
            self.wf(),
        ensures
            r is Some <==> self@.entries.contains_key(k),
            r matches Some(st) ==> st == self@.entries[k],
    {
        match self.find(k) {
            Some(i) => Some(self.entries[i].stamp),
            None => None,
        }
    }

    /// Whether `k` is held as a live (not deleted) key.
    pub fn contains(&self, k: u64) -> (r: bool)
        requires
            self.wf(),
        ensures
            r == (self@.entries.contains_key(k) && !self@.entries[k].dead),
    {
        match self.find(k) {
            Some(i) => !self.entries[i].stamp.dead,
            None => false,
        }
    }

    /// Offers stamp `st` for `k`, with no horizon check.
    fn absorb(&mut self, k: u64, st: Stamp)
        requires
            old(self).wf(),
        ensures
            final(self).wf(),
            final(self)@.entries == absorbed(old(self)@.entries, k, st),
            final(self)@.floor == old(self)@.floor,
    {
        match self.find(k) {
            Some(i) => {
                let cur = self.entries[i].stamp;
                if stamp_is_below(&cur, &st) {
                    self.entries.set(i, Entry { key: k, stamp: st });
                    self.model = Ghost(self.model@.insert(k, st));
                    assert forall|k2: u64|
                        #![trigger self.model@.contains_key(k2)]
                        self.model@.contains_key(k2) implies exists|j: int|
                            0 <= j < self.entries@.len() && self.entries@[j].key == k2 by {
                        if k2 != k {
                            let j = choose|j: int|
                                0 <= j < old(self).entries@.len() && old(self).entries@[j].key
                                    == k2;
                            assert(self.entries@[j].key == k2);
                        } else {
                            assert(self.entries@[i as int].key == k2);
                        }
                    }
                }
            },
            None => {
                self.entries.push(Entry { key: k, stamp: st });
                self.model = Ghost(self.model@.insert(k, st));
                assert forall|k2: u64|
                    #![trigger self.model@.contains_key(k2)]
                    self.model@.contains_key(k2) implies exists|j: int|
                        0 <= j < self.entries@.len() && self.entries@[j].key == k2 by {
                    if k2 != k {
                        let j = choose|j: int|
                            0 <= j < old(self).entries@.len() && old(self).entries@[j].key == k2;
                        assert(self.entries@[j].key == k2);
                    } else {
                        assert(self.entries@[self.entries@.len() - 1].key == k2);
                    }
                }
            },
        }
    }

    /// Inserts `k` at `ts`: ignored when `ts` is below the horizon or the set
    /// already holds `k` with a stamp at least as strong.
    pub fn insert(&mut self, k: u64, ts: Hlc)
        requires
            old(self).wf(),
        ensures
            final(self).wf(),
            final(self)@ == applied(old(self)@, k, ts, false),
    {
        if !ts.is_before(&self.floor) {
            self.absorb(k, Stamp { ts, dead: false });
        }
    }

    /// Deletes `k` at `ts`, leaving a tombstone, under the same dominance rule.
    pub fn delete(&mut self, k: u64, ts: Hlc)
        requires
            old(self).wf(),
        ensures
            final(self).wf(),
            final(self)@ == applied(old(self)@, k, ts, true),
    {
        if !ts.is_before(&self.floor) {
            self.absorb(k, Stamp { ts, dead: true });
        }
    }

    /// Offers every entry of `es`, in order, with no horizon check.
    fn absorb_all(&mut self, es: &Vec<Entry>)
        requires
            old(self).wf(),
        ensures
            final(self).wf(),
            final(self)@.entries == join(old(self)@.entries, fold_entries(es@)),
            final(self)@.floor == old(self)@.floor,
    {
        let mut i: usize = 0;
        proof {
            assert(es@.subrange(0, 0) =~= Seq::<Entry>::empty());
            assert(join(old(self)@.entries, Map::empty()) =~= old(self)@.entries);
        }
        while i < es.len()
            invariant
                0 <= i <= es@.len(),
                self.wf(),
                self@.entries == join(old(self)@.entries, fold_entries(es@.subrange(0, i as int))),
                self@.floor == old(self)@.floor,
            decreases es@.len() - i,
        {
            let e = es[i];
            proof {
                let pre = es@.subrange(0, i as int);
                assert(es@.subrange(0, i + 1).drop_last() =~= pre);
                lemma_join_absorbed(old(self)@.entries, fold_entries(pre), e.key, e.stamp);
            }
            self.absorb(e.key, e.stamp);
            i = i + 1;
        }
        assert(es@.subrange(0, es@.len() as int) =~= es@);
    }

    /// Merges `other` into this set: for each key the dominating stamp stays;
    /// entries of `other` below this set's horizon are ignored, as operations
    /// below it are. The horizon is left as it is.
    pub fn merge(&mut self, other: &OrSwotSet)
        requires
            old(self).wf(),
            other.wf(),
        ensures
            final(self).wf(),
            final(self)@ == merged(old(self)@, other@),
    {
        proof {
            lemma_fold_distinct(other.entries@);
            assert(fold_entries(other.entries@) =~= other.model@) by {
                assert forall|k: u64| other.model@.contains_key(k) implies #[trigger] fold_entries(other.entries@).contains_key(k) by {
                    let i = choose|i: int| 0 <= i < other.entries@.len() && other.entries@[i].key == k;
                }
                assert forall|k: u64| #[trigger] fold_entries(other.entries@).contains_key(k) implies fold_entries(other.entries@)[k] == other.model@[k] by {
                    let i = choose|i: int| 0 <= i < other.entries@.len() && other.entries@[i].key == k;
                    assert(other.model@[other.entries@[i].key] == other.entries@[i].stamp);
                }
            }
            lemma_fold_admitted(other.entries@, self.floor);
            assert(other.entries@.subrange(0, 0) =~= Seq::<Entry>::empty());
            assert(join(old(self)@.entries, Map::empty()) =~= old(self)@.entries);
        }
        let f = self.floor;
        let mut i: usize = 0;
        while i < other.entries.len()
            invariant
                0 <= i <= other.entries@.len(),
                self.wf(),
                self.floor == f,
                f == old(self)@.floor,
                self@.entries == join(old(self)@.entries, fold_admitted(other.entries@.subrange(0, i as int), f)),
            decreases other.entries@.len() - i,
        {
            let e = other.entries[i];
            proof {
                let pre = other.entries@.subrange(0, i as int);
                assert(other.entries@.subrange(0, i + 1).drop_last() =~= pre);
                lemma_join_absorbed(old(self)@.entries, fold_admitted(pre, f), e.key, e.stamp);
            }
            if !e.stamp.ts.is_before(&f) {
                self.absorb(e.key, e.stamp);
            }
            i = i + 1;
        }
        assert(other.entries@.subrange(0, other.entries@.len() as int) =~= other.entries@);
    }

    /// Removes every tombstone below `horizon` and raises the horizon to it
    /// (if later); returns the removed keys with their timestamps. Once purged,
    /// no insert below the horizon can bring a key back.
    pub fn purge_old_deletes(&mut self, horizon: Hlc) -> (r: Vec<(u64, Hlc)>)
        requires
            old(self).wf(),
        ensures
            final(self).wf(),
            final(self)@ == purged(old(self)@, horizon),
            forall|k: u64, t: Hlc| #[trigger] r@.contains((k, t)) <==> purgeable(old(self)@.entries, horizon, k)
                && old(self)@.entries[k].ts == t,
    {
        let f = horizon;
        let ghost m = self.model@;
        let ghost target = purged(self@, horizon).entries;
        let mut kept: Vec<Entry> = Vec::new();
        let mut gone: Vec<(u64, Hlc)> = Vec::new();
        let ghost mut nm: Map<u64, Stamp> = Map::empty();
        let mut i: usize = 0;
        while i < self.entries.len()
            invariant
                self.wf(),
                self.model@ == m,
                self.floor == old(self).floor,
                f == horizon,
                target == purged(old(self)@, horizon).entries,
                0 <= i <= self.entries@.len(),
                forall|a: int, b: int| 0 <= a < b < kept@.len() ==> kept@[a].key != kept@[b].key,
                forall|a: int| #![trigger kept@[a]] 0 <= a < kept@.len() ==> nm.contains_key(kept@[a].key) && nm[kept@[a].key] == kept@[a].stamp
                    && exists|j: int| 0 <= j < i && self.entries@[j].key == kept@[a].key,
                forall|k: u64| #![trigger nm.contains_key(k)] nm.contains_key(k) ==> exists|a: int| 0 <= a < kept@.len() && kept@[a].key == k,
                forall|k: u64| #![trigger nm.contains_key(k)] nm.contains_key(k) <==> target.contains_key(k) && exists|j: int| 0 <= j < i && self.entries@[j].key == k,
                forall|k: u64| #![trigger nm.contains_key(k)] nm.contains_key(k) ==> nm[k] == target[k],
                forall|k: u64, t: Hlc| #[trigger] gone@.contains((k, t)) <==> purgeable(m, f, k) && m[k].ts == t
                    && exists|j: int| 0 <= j < i && self.entries@[j].key == k,
            decreases self.entries@.len() - i,
        {
            let e = self.entries[i];
            proof {
                assert(m.contains_key(e.key) && m[e.key] == e.stamp);
            }
            if e.stamp.dead && e.stamp.ts.is_before(&f) {
                let ghost g0 = gone@;
                gone.push((e.key, e.stamp.ts));
                proof {
                    assert forall|k: u64, t: Hlc| #[trigger] gone@.contains((k, t)) <==> purgeable(m, f, k) && m[k].ts == t
                        && exists|j: int| 0 <= j < i + 1 && self.entries@[j].key == k by {
                        if gone@.contains((k, t)) && (k, t) != (e.key, e.stamp.ts) {
                            let a = choose|a: int| 0 <= a < gone@.len() && gone@[a] == (k, t);
                            assert(a != gone@.len() - 1);
                            assert(g0[a] == (k, t));
                            assert(g0.contains((k, t)));
                            let j = choose|j: int| 0 <= j < i && self.entries@[j].key == k;
                            assert(0 <= j < i + 1);
                        }
                        if gone@.contains((k, t)) && (k, t) == (e.key, e.stamp.ts) {
                            assert(self.entries@[i as int].key == k);
                            assert(purgeable(m, f, k));
                        }
                        if purgeable(m, f, k) && m[k].ts == t && exists|j: int| 0 <= j < i + 1 && self.entries@[j].key == k {
                            let j = choose|j: int| 0 <= j < i + 1 && self.entries@[j].key == k;
                            if j < i {
                                assert(g0.contains((k, t)));
                                let a = choose|a: int| 0 <= a < g0.len() && g0[a] == (k, t);
                                assert(gone@[a] == (k, t));
                            } else {
                                assert(gone@[gone@.len() - 1] == (k, t));
                            }
                        }
                    }
                    assert forall|k: u64| #![trigger nm.contains_key(k)] nm.contains_key(k) <==> target.contains_key(k) && exists|j: int| 0 <= j < i + 1 && self.entries@[j].key == k by {
                        if target.contains_key(k) && exists|j: int| 0 <= j < i + 1 && self.entries@[j].key == k {
                            let j = choose|j: int| 0 <= j < i + 1 && self.entries@[j].key == k;
                            if j == i {
                                assert(!target.contains_key(k));
                            }
                        }
                    }
                    assert forall|a: int| #![trigger kept@[a]] 0 <= a < kept@.len() implies nm.contains_key(kept@[a].key) && nm[kept@[a].key] == kept@[a].stamp
                        && exists|j: int| 0 <= j < i + 1 && self.entries@[j].key == kept@[a].key by {
                        let j = choose|j: int| 0 <= j < i && self.entries@[j].key == kept@[a].key;
                    }
                }
            } else {
                let ghost k0 = kept@;
                kept.push(e);
                proof {
                    assert(!nm.contains_key(e.key)) by {
                        if nm.contains_key(e.key) {
                            let j = choose|j: int| 0 <= j < i && self.entries@[j].key == e.key;
                            assert(self.entries@[j].key != self.entries@[i as int].key);
                        }
                    }
                    nm = nm.insert(e.key, e.stamp);
                    assert(target.contains_key(e.key));
                    assert forall|a: int, b: int| 0 <= a < b < kept@.len() implies kept@[a].key != kept@[b].key by {
                        if b == kept@.len() - 1 {
                            assert(k0[a] == kept@[a]);
                            assert(nm.contains_key(k0[a].key));
                        }
                    }
                    assert forall|a: int| #![trigger kept@[a]] 0 <= a < kept@.len() implies nm.contains_key(kept@[a].key) && nm[kept@[a].key] == kept@[a].stamp
                        && exists|j: int| 0 <= j < i + 1 && self.entries@[j].key == kept@[a].key by {
                        if a < kept@.len() - 1 {
                            assert(k0[a] == kept@[a]);
                            assert(k0[a].key != e.key);
                            let j = choose|j: int| 0 <= j < i && self.entries@[j].key == kept@[a].key;
                        } else {
                            assert(self.entries@[i as int].key == kept@[a].key);
                        }
                    }
                    assert forall|k: u64| #![trigger nm.contains_key(k)] nm.contains_key(k) implies exists|a: int| 0 <= a < kept@.len() && kept@[a].key == k by {
                        if k == e.key {
                            assert(kept@[kept@.len() - 1].key == k);
                        } else {
                            let a = choose|a: int| 0 <= a < k0.len() && k0[a].key == k;
                            assert(kept@[a].key == k);
                        }
                    }
                    assert forall|k: u64| #![trigger nm.contains_key(k)] nm.contains_key(k) <==> target.contains_key(k) && exists|j: int| 0 <= j < i + 1 && self.entries@[j].key == k by {
                        if nm.contains_key(k) && k != e.key {
                            let j = choose|j: int| 0 <= j < i && self.entries@[j].key == k;
                        }
                        if k == e.key {
                            assert(self.entries@[i as int].key == k);
                        }
                    }
                    assert forall|k: u64, t: Hlc| #[trigger] gone@.contains((k, t)) <==> purgeable(m, f, k) && m[k].ts == t
                        && exists|j: int| 0 <= j < i + 1 && self.entries@[j].key == k by {
                        if gone@.contains((k, t)) {
                            let j = choose|j: int| 0 <= j < i && self.entries@[j].key == k;
                            assert(0 <= j < i + 1 && self.entries@[j].key == k);
                        }
                        if purgeable(m, f, k) && m[k].ts == t && exists|j: int| 0 <= j < i + 1 && self.entries@[j].key == k {
                            let j = choose|j: int| 0 <= j < i + 1 && self.entries@[j].key == k;
                            if j == i {
                                assert(k == e.key);
                                assert(!purgeable(m, f, k));
                            } else {
                                assert(exists|j: int| 0 <= j < i && self.entries@[j].key == k);
                            }
                        }
                    }
                }
            }
            i = i + 1;
        }
        proof {
            assert forall|k: u64| #![trigger nm.contains_key(k)] nm.contains_key(k) <==> target.contains_key(k) by {
                if target.contains_key(k) {
                    assert(m.contains_key(k));
                }
            }
            assert(nm =~= target);
            assert forall|k: u64, t: Hlc| #[trigger] gone@.contains((k, t)) <==> purgeable(m, f, k) && m[k].ts == t by {
                if purgeable(m, f, k) {
                    assert(m.contains_key(k));
                }
            }
        }
        self.entries = kept;
        if self.floor.is_before(&horizon) {
            self.floor = horizon;
        }
        self.model = Ghost(nm);
        proof {
            assert forall|k: u64| #![trigger self.model@.contains_key(k)] self.model@.contains_key(k) implies exists|a: int|
                0 <= a < self.entries@.len() && self.entries@[a].key == k by {
                assert(nm.contains_key(k));
                let a = choose|a: int| 0 <= a < kept@.len() && kept@[a].key == k;
                assert(self.entries@[a].key == k);
            }
            assert forall|a: int| #![trigger self.entries@[a]] 0 <= a < self.entries@.len() implies self.model@.contains_key(self.entries@[a].key)
                && self.model@[self.entries@[a].key] == self.entries@[a].stamp by {
                assert(kept@[a] == self.entries@[a]);
            }
        }
        gone
    }

    /// The snapshot bytes of this set.
    pub fn snapshot(&self) -> (r: Vec<u8>)
        requires
            self.wf(),
        ensures
            r@ == snapshot_bytes(self@.floor, self.entry_seq()),
            decode_snapshot(r@) == Some(self@),
    {
        let len = self.entries.len();
        proof {
            lemma_snapshot_round_trip(self);
        }
        let mut buf: Vec<u8> = Vec::new();
        put_hlc(&mut buf, self.floor);
        put_u64(&mut buf, len as u64);
        let ghost head = buf@;
        let mut i: usize = 0;
        proof {
            assert(self.entries@.subrange(0, 0) =~= Seq::<Entry>::empty());
            assert(buf@ =~= head + entries_bytes(self.entries@.subrange(0, 0)));
        }
        while i < self.entries.len()
            invariant
                0 <= i <= self.entries@.len(),
                head == hlc_bytes(self.floor) + spec_u64_to_le_bytes(self.entries@.len() as u64),
                buf@ == head + entries_bytes(self.entries@.subrange(0, i as int)),
            decreases self.entries@.len() - i,
        {
            let e = self.entries[i];
            put_u64(&mut buf, e.key);
            put_hlc(&mut buf, e.stamp.ts);
            buf.push(if e.stamp.dead { 1u8 } else { 0u8 });
            proof {
                assert(self.entries@.subrange(0, i + 1).drop_last() =~= self.entries@.subrange(0, i as int));
                assert(buf@ =~= head + entries_bytes(self.entries@.subrange(0, i + 1)));
            }
            i = i + 1;
        }
        assert(self.entries@.subrange(0, self.entries@.len() as int) =~= self.entries@);
        buf
    }

    /// Rebuilds a set from snapshot bytes; a malformed snapshot is
    /// `CorruptedState`.
    pub fn load(bytes: &[u8]) -> (r: Result<OrSwotSet, CorruptedState>)
        ensures
            r is Ok <==> decode_snapshot(bytes@) is Some,
            r matches Ok(s) ==> s.wf() && s@ == decode_snapshot(bytes@)->Some_0,
    {
        if bytes.len() < 24 {
            return Err(CorruptedState);
        }
        let floor = get_hlc(bytes, 0).unwrap();
        let n = get_u64(bytes, 16).unwrap();
        let ghost body = bytes@.subrange(24, bytes@.len() as int);
        if n > ((bytes.len() - 24) / 25) as u64 || (bytes.len() - 24) != 25 * (n as usize) {
            proof {
                lemma_parse_entries_len(body, n as nat);
            }
            return Err(CorruptedState);
        }
        let count = n as usize;
        let mut es: Vec<Entry> = Vec::new();
        let mut i: usize = 0;
        proof {
            assert(body.subrange(0, 0) =~= Seq::<u8>::empty());
        }
        while i < count
            invariant
                0 <= i <= count,
                count == n,
                n == spec_u64_from_le_bytes(bytes@.subrange(16, 24)),
                floor == hlc_from(bytes@.subrange(0, 16)),
                bytes@.len() == 24 + 25 * n,
                bytes@.len() <= usize::MAX,
                body == bytes@.subrange(24, bytes@.len() as int),
                parse_entries(body.subrange(0, 25 * i), i as nat) == Some(es@),
            decreases n - i,
        {
            proof {
                assert(25 * i + 25 <= 25 * n) by (nonlinear_arith)
                    requires
                        i < n,
                ;
            }
            let pos = 24 + 25 * i;
            let key = get_u64(bytes, pos).unwrap();
            let ts = get_hlc(bytes, pos + 8).unwrap();
            let d = bytes[pos + 24];
            let ghost chunk = body.subrange(25 * i, 25 * i + 25);
            proof {
                let pre = body.subrange(0, 25 * (i + 1));
                assert(pre.subrange(0, pre.len() - 25) =~= body.subrange(0, 25 * i));
                assert(pre.subrange(pre.len() - 25, pre.len() as int) =~= chunk);
                assert(chunk.subrange(0, 8) =~= bytes@.subrange(pos as int, pos + 8));
                assert(chunk.subrange(8, 24) =~= bytes@.subrange(pos + 8, pos + 24));
                assert(chunk[24] == d);
            }
            if d > 1 {
                proof {
                    let pre = body.subrange(0, 25 * (i + 1));
                    assert(parse_entry(chunk) is None);
                    assert(parse_entries(pre, (i + 1) as nat) is None);
                    lemma_parse_entries_prefix(body, n as nat, (i + 1) as nat);
                }
                return Err(CorruptedState);
            }
            es.push(Entry { key, stamp: Stamp { ts, dead: d == 1 } });
            i = i + 1;
        }
        proof {
            assert(body.subrange(0, 25 * n) =~= body);
        }
        let mut s = OrSwotSet { entries: Vec::new(), floor, model: Ghost(Map::empty()) };
        s.absorb_all(&es);
        proof {
            lemma_join_empty(fold_entries(es@));
            assert(bytes@.subrange(0, 16) =~= bytes@.subrange(0, 16));
        }
        Ok(s)
    }

    /// Whether stamp `st` for key `k` would win against what this set holds.
    pub fn would_win(&self, k: u64, st: Stamp) -> (r: bool)
        requires
            self.wf(),
        ensures
            r == newer_in(self@, k, st),
    {
        if st.ts.is_before(&self.floor) {
            return false;
        }
        match self.find(k) {
            Some(i) => stamp_is_below(&self.entries[i].stamp, &st),
            None => true,
        }
    }

    /// What `other` holds that is newer than this set: the live keys whose
    /// stamp in `other` would win here (`changed`), and the tombstones of
    /// `other` that would win here (`removed`), each with its timestamp.
    pub fn diff(&self, other: &OrSwotSet) -> (r: (Vec<(u64, Hlc)>, Vec<(u64, Hlc)>))
        requires
            self.wf(),
            other.wf(),
        ensures
            forall|k: u64, t: Hlc| #[trigger] r.0@.contains((k, t)) <==> other@.entries.contains_key(k)
                && other@.entries[k] == (Stamp { ts: t, dead: false }) && newer_in(self@, k, other@.entries[k]),
            forall|k: u64, t: Hlc| #[trigger] r.1@.contains((k, t)) <==> other@.entries.contains_key(k)
                && other@.entries[k] == (Stamp { ts: t, dead: true }) && newer_in(self@, k, other@.entries[k]),
    {
        let mut changed: Vec<(u64, Hlc)> = Vec::new();
        let mut removed: Vec<(u64, Hlc)> = Vec::new();
        let mut i: usize = 0;
        while i < other.entries.len()
            invariant
                self.wf(),
                other.wf(),
                0 <= i <= other.entries@.len(),
                forall|k: u64, t: Hlc| #[trigger] changed@.contains((k, t)) <==> other@.entries.contains_key(k)
                    && other@.entries[k] == (Stamp { ts: t, dead: false }) && newer_in(self@, k, other@.entries[k])
                    && exists|j: int| 0 <= j < i && other.entries@[j].key == k,
                forall|k: u64, t: Hlc| #[trigger] removed@.contains((k, t)) <==> other@.entries.contains_key(k)
                    && other@.entries[k] == (Stamp { ts: t, dead: true }) && newer_in(self@, k, other@.entries[k])
                    && exists|j: int| 0 <= j < i && other.entries@[j].key == k,
            decreases other.entries@.len() - i,
        {
            let e = other.entries[i];
            proof {
                assert(other.model@.contains_key(e.key) && other.model@[e.key] == e.stamp);
            }
            let ghost c0 = changed@;
            let ghost r0 = removed@;
            if self.would_win(e.key, e.stamp) {
                if e.stamp.dead {
                    removed.push((e.key, e.stamp.ts));
                } else {
                    changed.push((e.key, e.stamp.ts));
                }
            }
            proof {
                assert forall|k: u64, t: Hlc| #[trigger] changed@.contains((k, t)) <==> other@.entries.contains_key(k)
                    && other@.entries[k] == (Stamp { ts: t, dead: false }) && newer_in(self@, k, other@.entries[k])
                    && exists|j: int| 0 <= j < i + 1 && other.entries@[j].key == k by {
                    if changed@.contains((k, t)) && !c0.contains((k, t)) {
                        assert(other.entries@[i as int].key == k);
                    }
                    if changed@.contains((k, t)) && c0.contains((k, t)) {
                        let j = choose|j: int| 0 <= j < i && other.entries@[j].key == k;
                    }
                    if c0.contains((k, t)) {
                        let a = choose|a: int| 0 <= a < c0.len() && c0[a] == (k, t);
                        assert(changed@[a] == (k, t));
                    }
                    if other@.entries.contains_key(k) && other@.entries[k] == (Stamp { ts: t, dead: false }) && newer_in(self@, k, other@.entries[k])
                        && exists|j: int| 0 <= j < i + 1 && other.entries@[j].key == k {
                        let j = choose|j: int| 0 <= j < i + 1 && other.entries@[j].key == k;
                        if j == i {
                            assert(changed@[changed@.len() - 1] == (k, t));
                        } else {
                            assert(c0.contains((k, t)));
                        }
                    }
                }
                assert forall|k: u64, t: Hlc| #[trigger] removed@.contains((k, t)) <==> other@.entries.contains_key(k)
                    && other@.entries[k] == (Stamp { ts: t, dead: true }) && newer_in(self@, k, other@.entries[k])
                    && exists|j: int| 0 <= j < i + 1 && other.entries@[j].key == k by {
                    if removed@.contains((k, t)) && !r0.contains((k, t)) {
                        assert(other.entries@[i as int].key == k);
                    }
                    if removed@.contains((k, t)) && r0.contains((k, t)) {
                        let j = choose|j: int| 0 <= j < i && other.entries@[j].key == k;
                    }
                    if r0.contains((k, t)) {
                        let a = choose|a: int| 0 <= a < r0.len() && r0[a] == (k, t);
                        assert(removed@[a] == (k, t));
                    }
                    if other@.entries.contains_key(k) && other@.entries[k] == (Stamp { ts: t, dead: true }) && newer_in(self@, k, other@.entries[k])
                        && exists|j: int| 0 <= j < i + 1 && other.entries@[j].key == k {
                        let j = choose|j: int| 0 <= j < i + 1 && other.entries@[j].key == k;
                        if j == i {
                            assert(removed@[removed@.len() - 1] == (k, t));
                        } else {
                            assert(r0.contains((k, t)));
                        }
                    }
                }
            }
            i = i + 1;
        }
        proof {
            assert forall|k: u64| #[trigger] other@.entries.contains_key(k) implies exists|j: int| 0 <= j < other.entries@.len() && other.entries@[j].key == k by {
                assert(other.model@.contains_key(k));
            }
        }
        (changed, removed)
    }
}

/// Offering stamps for distinct keys one after another builds the map of
/// those entries.
proof fn lemma_fold_distinct(es: Seq<Entry>)
    requires
        forall|i: int, j: int| 0 <= i < j < es.len() ==> es[i].key != es[j].key,
    ensures
        forall|k: u64|
            #[trigger] fold_entries(es).contains_key(k) <==> exists|i: int|
                0 <= i < es.len() && es[i].key == k,
        forall|i: int|
            0 <= i < es.len() ==> #[trigger] fold_entries(es)[es[i].key] == es[i].stamp,
    decreases es.len(),
{
    if es.len() > 0 {
        let pre = es.drop_last();
        lemma_fold_distinct(pre);
        let e = es.last();
        assert(!fold_entries(pre).contains_key(e.key)) by {
            if fold_entries(pre).contains_key(e.key) {
                let i = choose|i: int| 0 <= i < pre.len() && pre[i].key == e.key;
                assert(es[i].key == es[es.len() - 1].key);
            }
        }
        assert forall|k: u64| #[trigger] fold_entries(es).contains_key(k) <==> exists|i: int|
            0 <= i < es.len() && es[i].key == k by {
            if fold_entries(es).contains_key(k) && k != e.key {
                let i = choose|i: int| 0 <= i < pre.len() && pre[i].key == k;
                assert(es[i].key == k);
            }
            if exists|i: int| 0 <= i < es.len() && es[i].key == k {
                let i = choose|i: int| 0 <= i < es.len() && es[i].key == k;
                if i < es.len() - 1 {
                    assert(pre[i].key == k);
                }
            }
        }
        assert forall|i: int| 0 <= i < es.len() implies #[trigger] fold_entries(es)[es[i].key]
            == es[i].stamp by {
            if i < es.len() - 1 {
                assert(pre[i] == es[i]);
                assert(es[i].key != e.key);
            }
        }
    }
}

/// Pointwise dominance is associative.
proof fn lemma_join_associative(a: Map<u64, Stamp>, b: Map<u64, Stamp>, c: Map<u64, Stamp>)
    ensures
        join(join(a, b), c) == join(a, join(b, c)),
{
    assert forall|k: u64| a.contains_key(k) && b.contains_key(k) && c.contains_key(k)
        implies #[trigger] stamp_max(stamp_max(a[k], b[k]), c[k])
        == stamp_max(a[k], stamp_max(b[k], c[k])) by {
        let (x, y, z) = (a[k], b[k], c[k]);
        lemma_stamp_total(x, y);
        lemma_stamp_total(y, z);
        lemma_stamp_total(x, z);
        if stamp_lt(x, y) && stamp_lt(y, z) {
            lemma_stamp_trans(x, y, z);
        }
        if stamp_lt(z, y) && stamp_lt(y, x) {
            lemma_stamp_trans(z, y, x);
        }
    }
    assert(join(join(a, b), c) =~= join(a, join(b, c)));
}

/// Merging is associative, when the middle state's horizon is not above the
/// receiving one's (entries that the middle state ignored stay ignored).
pub proof fn lemma_merge_associative(a: SetState, b: SetState, c: SetState)
    requires
        !a.floor.precedes(b.floor),
    ensures
        merged(merged(a, b), c) == merged(a, merged(b, c)),
{
    let f = a.floor;
    lemma_admitted_join(b.entries, admitted(c.entries, b.floor), f);
    assert forall|k: u64| #[trigger] c.entries.contains_key(k) && !c.entries[k].ts.precedes(f) implies !c.entries[k].ts.precedes(b.floor) by {
        lemma_precedes_total(c.entries[k].ts, b.floor);
        lemma_precedes_total(f, b.floor);
        lemma_precedes_total(c.entries[k].ts, f);
    }
    assert(admitted(admitted(c.entries, b.floor), f) =~= admitted(c.entries, f));
    lemma_join_associative(a.entries, admitted(b.entries, f), admitted(c.entries, f));
}

/// Pointwise dominance is commutative.
proof fn lemma_join_commutative(x: Map<u64, Stamp>, y: Map<u64, Stamp>)
    ensures
        join(x, y) == join(y, x),
{
    assert forall|k: u64| x.contains_key(k) && y.contains_key(k) implies #[trigger] stamp_max(x[k], y[k]) == stamp_max(y[k], x[k]) by {
        lemma_stamp_total(x[k], y[k]);
    }
    assert(join(x, y) =~= join(y, x));
}

/// Merging is commutative between states with the same horizon, on every
/// entry at or above that horizon. (An entry below the horizon that one side
/// lacks is one that the horizon declares seen by every replica.)
pub proof fn lemma_merge_commutative(a: SetState, b: SetState)
    requires
        a.floor == b.floor,
    ensures
        admitted(merged(a, b).entries, a.floor) == admitted(merged(b, a).entries, a.floor),
        merged(a, b).floor == merged(b, a).floor,
{
    let f = a.floor;
    lemma_admitted_join(a.entries, admitted(b.entries, f), f);
    lemma_admitted_join(b.entries, admitted(a.entries, f), f);
    assert(admitted(admitted(a.entries, f), f) =~= admitted(a.entries, f));
    assert(admitted(admitted(b.entries, f), f) =~= admitted(b.entries, f));
    lemma_join_commutative(admitted(a.entries, f), admitted(b.entries, f));
}

/// Merging a state with itself changes nothing.
pub proof fn lemma_merge_idempotent(a: SetState)
    ensures
        merged(a, a) == a,
{
    assert forall|k: u64| a.entries.contains_key(k) implies #[trigger] stamp_max(a.entries[k], a.entries[k]) == a.entries[k] by {
        lemma_stamp_total(a.entries[k], a.entries[k]);
    }
    assert(join(a.entries, admitted(a.entries, a.floor)) =~= a.entries);
}

/// Two inserts or deletes give the same state in either order.
pub proof fn lemma_ops_commute(s: SetState, k1: u64, t1: Hlc, d1: bool, k2: u64, t2: Hlc, d2: bool)
    ensures
        applied(applied(s, k1, t1, d1), k2, t2, d2) == applied(applied(s, k2, t2, d2), k1, t1, d1),
{
    let x = Stamp { ts: t1, dead: d1 };
    let y = Stamp { ts: t2, dead: d2 };
    lemma_stamp_total(x, y);
    if s.entries.contains_key(k1) {
        lemma_stamp_total(s.entries[k1], x);
        lemma_stamp_total(s.entries[k1], y);
        if stamp_lt(s.entries[k1], x) && stamp_lt(x, y) {
            lemma_stamp_trans(s.entries[k1], x, y);
        }
        if stamp_lt(s.entries[k1], y) && stamp_lt(y, x) {
            lemma_stamp_trans(s.entries[k1], y, x);
        }
    }
    if s.entries.contains_key(k2) {
        lemma_stamp_total(s.entries[k2], x);
        lemma_stamp_total(s.entries[k2], y);
        if stamp_lt(s.entries[k2], x) && stamp_lt(x, y) {
            lemma_stamp_trans(s.entries[k2], x, y);
        }
        if stamp_lt(s.entries[k2], y) && stamp_lt(y, x) {
            lemma_stamp_trans(s.entries[k2], y, x);
        }
    }
    let l = applied(applied(s, k1, t1, d1), k2, t2, d2);
    let r = applied(applied(s, k2, t2, d2), k1, t1, d1);
    assert(l.entries =~= r.entries);
}

/// Applying the same insert or delete twice is applying it once.
pub proof fn lemma_op_idempotent(s: SetState, k: u64, t: Hlc, d: bool)
    ensures
        applied(applied(s, k, t, d), k, t, d) == applied(s, k, t, d),
{
    lemma_stamp_total(Stamp { ts: t, dead: d }, Stamp { ts: t, dead: d });
    assert(applied(applied(s, k, t, d), k, t, d).entries =~= applied(s, k, t, d).entries);
}

/// A well-formed list of `n` entries is `25 * n` bytes long.
proof fn lemma_parse_entries_len(b: Seq<u8>, n: nat)
    ensures
        parse_entries(b, n) is Some ==> b.len() == 25 * n,
    decreases n,
{
    if n > 0 && b.len() >= 25 {
        lemma_parse_entries_len(b.subrange(0, b.len() - 25), (n - 1) as nat);
    }
}

/// If `b` parses as `n` entries, each prefix of `m` whole entries parses too.
proof fn lemma_parse_entries_prefix(b: Seq<u8>, n: nat, m: nat)
    requires
        m <= n,
        b.len() == 25 * n,
    ensures
        parse_entries(b, n) is Some ==> parse_entries(b.subrange(0, 25 * m as int), m) is Some,
    decreases n,
{
    if n > m {
        let pre = b.subrange(0, b.len() - 25);
        lemma_parse_entries_prefix(pre, (n - 1) as nat, m);
        assert(pre.subrange(0, 25 * m as int) =~= b.subrange(0, 25 * m as int));
    } else {
        assert(b.subrange(0, 25 * m as int) =~= b);
    }
}

/// Loading a snapshot gives back the state it was taken of.
pub proof fn lemma_snapshot_round_trip(s: &OrSwotSet)
    requires
        s.wf(),
        s.entry_seq().len() <= usize::MAX,
    ensures
        decode_snapshot(snapshot_bytes(s@.floor, s.entry_seq())) == Some(s@),
{
    let es = s.entry_seq();
    s.lemma_entry_seq();
    lemma_hlc_bytes(s@.floor);
    lemma_auto_spec_u64_to_from_le_bytes();
    lemma_entries_bytes(es);
    let b = snapshot_bytes(s@.floor, es);
    assert(b.subrange(0, 16) =~= hlc_bytes(s@.floor));
    assert(b.subrange(16, 24) =~= spec_u64_to_le_bytes(es.len() as u64));
    assert(b.subrange(24, b.len() as int) =~= entries_bytes(es));
    lemma_fold_distinct(es);
    assert(fold_entries(es) =~= s@.entries) by {
        assert forall|k: u64| s@.entries.contains_key(k) implies #[trigger] fold_entries(es).contains_key(k) by {
            let i = choose|i: int| 0 <= i < es.len() && es[i].key == k;
        }
        assert forall|k: u64| #[trigger] fold_entries(es).contains_key(k) implies fold_entries(es)[k] == s@.entries[k] by {
            let i = choose|i: int| 0 <= i < es.len() && es[i].key == k;
        }
    }
}

/// Whether stamp `a` is strictly dominated by `b`.
pub fn stamp_is_below(a: &Stamp, b: &Stamp) -> (r: bool)
    ensures
        r == stamp_lt(*a, *b),
{
    a.ts.is_before(&b.ts) || (a.ts == b.ts && !a.dead && b.dead)
}

} // verus!
