use crate::codec::{get_u64, put_bytes, put_u64, CorruptedState};
use vstd::bytes::*;
use vstd::prelude::*;
use vstd::slice::slice_subrange;
use vstd::string::StringSliceAdditionalSpecFns;
use vstd::utf8::{decode_utf8, encode_utf8, encode_utf8_decode_utf8, encode_utf8_valid_utf8, valid_utf8};

verus! {

/// The name of a keyspace, as it stands in the counter map.
#[derive(Clone, Debug)]
pub struct CounterKey(pub String);

/// Relies on std::str::from_utf8: it succeeds exactly on valid UTF-8, and the
/// string then has those bytes, so its characters are their decoding.
#[verifier::external_body]
fn utf8_string(b: &[u8]) -> (r: Option<String>)
    ensures
        r is Some <==> valid_utf8(b@),
        r matches Some(s) ==> s@ == decode_utf8(b@),
{
    std::str::from_utf8(b).ok().map(|s| s.to_owned())
}

/// For each keyspace, the wall-clock milliseconds of its last local change.
/// These values are only comparable with values of the same node; 0 means
/// that nothing is known.
pub struct KeyspaceCounters {
    entries: Vec<(String, u64)>,
    model: Ghost<Map<Seq<char>, u64>>,
}

/// The bytes of one counter: the length of the name, its UTF-8 bytes, the value.
pub open spec fn counter_bytes(name: Seq<char>, v: u64) -> Seq<u8> {
    spec_u64_to_le_bytes(encode_utf8(name).len() as u64) + encode_utf8(name) + spec_u64_to_le_bytes(v)
}

pub open spec fn counters_body(es: Seq<(Seq<char>, u64)>) -> Seq<u8>
    decreases es.len(),
{
    if es.len() == 0 {
        Seq::empty()
    } else {
        counters_body(es.drop_last()) + counter_bytes(es.last().0, es.last().1)
    }
}

/// The encoding of a counter map: the number of counters, then each counter.
pub open spec fn counters_bytes(es: Seq<(Seq<char>, u64)>) -> Seq<u8> {
    spec_u64_to_le_bytes(es.len() as u64) + counters_body(es)
}

/// Reads counters from `b` at `pos` onward: `n` of them, ending exactly at the end.
pub open spec fn parse_counters(b: Seq<u8>, pos: int, n: nat) -> Option<Seq<(Seq<char>, u64)>>
    decreases n, b.len() - pos,
{
    if pos < 0 || pos > b.len() {
        None
    } else if n == 0 {
        if pos == b.len() {
            Some(Seq::empty())
        } else {
            None
        }
    } else if b.len() - pos < 8 {
        None
    } else {
        let l = spec_u64_from_le_bytes(b.subrange(pos, pos + 8)) as int;
        if b.len() - pos - 8 < l + 8 {
            None
        } else {
            let nb = b.subrange(pos + 8, pos + 8 + l);
            if !valid_utf8(nb) {
                None
            } else {
                let v = spec_u64_from_le_bytes(b.subrange(pos + 8 + l, pos + 16 + l));
                match parse_counters(b, pos + 16 + l, (n - 1) as nat) {
                    Some(rest) => Some(seq![(decode_utf8(nb), v)] + rest),
                    None => None,
                }
            }
        }
    }
}

/// The map that a list of counters stands for (a later name overrides an earlier one).
pub open spec fn counters_map(es: Seq<(Seq<char>, u64)>) -> Map<Seq<char>, u64>
    decreases es.len(),
{
    if es.len() == 0 {
        Map::empty()
    } else {
        counters_map(es.drop_last()).insert(es.last().0, es.last().1)
    }
}

/// The counter map that `b` encodes, if it is well formed.
pub open spec fn decode_counters(b: Seq<u8>) -> Option<Map<Seq<char>, u64>> {
    if b.len() < 8 {
        None
    } else {
        match parse_counters(b, 8, spec_u64_from_le_bytes(b.subrange(0, 8)) as nat) {
            Some(es) => Some(counters_map(es)),
            None => None,
        }
    }
}

proof fn lemma_parse_counters_suffix(pre: Seq<u8>, es: Seq<(Seq<char>, u64)>)
    requires
        forall|i: int| 0 <= i < es.len() ==> encode_utf8(#[trigger] es[i].0).len() <= u64::MAX,
    ensures
        parse_counters(pre + counters_body_rev(es), pre.len() as int, es.len()) == Some(es),
    decreases es.len(),
{
    lemma_auto_spec_u64_to_from_le_bytes();
    let b = pre + counters_body_rev(es);
    if es.len() > 0 {
        let (name, v) = es[0];
        let nb = encode_utf8(name);
        encode_utf8_valid_utf8(name);
        encode_utf8_decode_utf8(name);
        let l = nb.len() as int;
        let pos = pre.len() as int;
        let pre2 = pre + counter_bytes(name, v);
        assert(b =~= pre2 + counters_body_rev(es.drop_first()));
        assert(b.subrange(pos, pos + 8) =~= spec_u64_to_le_bytes(l as u64));
        assert(b.subrange(pos + 8, pos + 8 + l) =~= nb);
        assert(b.subrange(pos + 8 + l, pos + 16 + l) =~= spec_u64_to_le_bytes(v));
        assert forall|i: int| 0 <= i < es.drop_first().len() implies encode_utf8(#[trigger] es.drop_first()[i].0).len() <= u64::MAX by {
            assert(es.drop_first()[i] == es[i + 1]);
        }
        lemma_parse_counters_suffix(pre2, es.drop_first());
        assert(seq![(name, v)] + es.drop_first() =~= es);
    } else {
        assert(b =~= pre);
    }
}

/// The counters of `es` laid out front to back.
pub open spec fn counters_body_rev(es: Seq<(Seq<char>, u64)>) -> Seq<u8>
    decreases es.len(),
{
    if es.len() == 0 {
        Seq::empty()
    } else {
        counter_bytes(es[0].0, es[0].1) + counters_body_rev(es.drop_first())
    }
}

proof fn lemma_body_same(es: Seq<(Seq<char>, u64)>)
    ensures
        counters_body(es) == counters_body_rev(es),
    decreases es.len(),
{
    if es.len() > 0 {
        lemma_body_same(es.drop_last());
        if es.len() > 1 {
            lemma_body_same(es.drop_first());
            lemma_body_same(es.drop_first().drop_last());
            assert(es.drop_last().drop_first() =~= es.drop_first().drop_last());
            assert(es.drop_first().last() == es.last());
            assert(es.drop_last()[0] == es[0]);
            assert(counters_body_rev(es) =~= counters_body(es));
        } else {
            assert(es.drop_first() =~= Seq::<(Seq<char>, u64)>::empty());
            assert(es.drop_last() =~= Seq::<(Seq<char>, u64)>::empty());
            assert(counters_body_rev(es) =~= counters_body(es));
        }
    }
}

impl KeyspaceCounters {
    pub closed spec fn wf(&self) -> bool {
        &&& forall|i: int, j: int|
            0 <= i < j < self.entries@.len() ==> self.entries@[i].0@ != self.entries@[j].0@
        &&& forall|i: int|
            #![trigger self.entries@[i]]
            0 <= i < self.entries@.len() ==> self.model@.contains_key(self.entries@[i].0@)
                && self.model@[self.entries@[i].0@] == self.entries@[i].1
        &&& forall|k: Seq<char>|
            #![trigger self.model@.contains_key(k)]
            self.model@.contains_key(k) ==> exists|i: int|
                0 <= i < self.entries@.len() && self.entries@[i].0@ == k
    }

    /// The counters as a map from keyspace name.
    pub closed spec fn map(&self) -> Map<Seq<char>, u64> {
        self.model@
    }

    /// The counters as a list of names and values, in stored order.
    pub closed spec fn list(&self) -> Seq<(Seq<char>, u64)> {
        self.entries@.map_values(|e: (String, u64)| (e.0@, e.1))
    }

    pub fn new() -> (r: KeyspaceCounters)
        ensures
            r.wf(),
            r.map() == Map::<Seq<char>, u64>::empty(),
    {
        KeyspaceCounters { entries: Vec::new(), model: Ghost(Map::empty()) }
    }

    fn find(&self, name: &str) -> (r: Option<usize>)
        requires
            self.wf(),
        ensures
            r matches Some(i) ==> i < self.entries@.len() && self.entries@[i as int].0@ == name@,
            r is None ==> !self.map().contains_key(name@),
    {
        let target = name.to_owned();
        let mut i: usize = 0;
        while i < self.entries.len()
            invariant
                self.wf(),
                target@ == name@,
                0 <= i <= self.entries@.len(),
                forall|j: int| 0 <= j < i ==> self.entries@[j].0@ != name@,
            decreases self.entries@.len() - i,
        {
            if self.entries[i].0 == target {
                return Some(i);
            }
            i = i + 1;
        }
        proof {
            if self.model@.contains_key(name@) {
                let j = choose|j: int| 0 <= j < self.entries@.len() && self.entries@[j].0@ == name@;
            }
        }
        None
    }

    /// The counter of keyspace `name`, or 0 when none is known.
    pub fn get(&self, name: &str) -> (r: u64)
        requires
            self.wf(),
        ensures
            r == counter_of(self.map(), name@),
    {
        match self.find(name) {
            Some(i) => self.entries[i].1,
            None => 0,
        }
    }

    /// Sets the counter of keyspace `name` to `v`.
    pub fn set(&mut self, name: &str, v: u64)
        requires
            old(self).wf(),
        ensures
            final(self).wf(),
            final(self).map() == old(self).map().insert(name@, v),
    {
        match self.find(name) {
            Some(i) => {
                let n = self.entries[i].0.clone();
                self.entries.set(i, (n, v));
                self.model = Ghost(self.model@.insert(name@, v));
                assert forall|k: Seq<char>|
                    #![trigger self.model@.contains_key(k)]
                    self.model@.contains_key(k) implies exists|j: int|
                        0 <= j < self.entries@.len() && self.entries@[j].0@ == k by {
                    if k != name@ {
                        let j = choose|j: int|
                            0 <= j < old(self).entries@.len() && old(self).entries@[j].0@ == k;
                        assert(self.entries@[j].0@ == k);
                    } else {
                        assert(self.entries@[i as int].0@ == k);
                    }
                }
            },
            None => {
                self.entries.push((name.to_owned(), v));
                self.model = Ghost(self.model@.insert(name@, v));
                assert forall|k: Seq<char>|
                    #![trigger self.model@.contains_key(k)]
                    self.model@.contains_key(k) implies exists|j: int|
                        0 <= j < self.entries@.len() && self.entries@[j].0@ == k by {
                    if k != name@ {
                        let j = choose|j: int|
                            0 <= j < old(self).entries@.len() && old(self).entries@[j].0@ == k;
                        assert(self.entries@[j].0@ == k);
                    } else {
                        assert(self.entries@[self.entries@.len() - 1].0@ == k);
                    }
                }
            },
        }
    }

    /// The names and values, in stored order.
    pub fn entries(&self) -> (r: Vec<(String, u64)>)
        requires
            self.wf(),
        ensures
            r@.map_values(|e: (String, u64)| (e.0@, e.1)) == self.list(),
            forall|k: Seq<char>| self.map().contains_key(k) <==> exists|i: int| 0 <= i < r@.len() && #[trigger] r@[i].0@ == k,
            forall|i: int| #![trigger r@[i]] 0 <= i < r@.len() ==> self.map()[r@[i].0@] == r@[i].1,
    {
        let mut out: Vec<(String, u64)> = Vec::new();
        let mut i: usize = 0;
        while i < self.entries.len()
            invariant
                self.wf(),
                0 <= i <= self.entries@.len(),
                out@.len() == i,
                forall|j: int| 0 <= j < i ==> #[trigger] out@[j].0@ == self.entries@[j].0@ && out@[j].1 == self.entries@[j].1,
            decreases self.entries@.len() - i,
        {
            let n = self.entries[i].0.clone();
            out.push((n, self.entries[i].1));
            i = i + 1;
        }
        proof {
            assert(out@.map_values(|e: (String, u64)| (e.0@, e.1)) =~= self.list());
            assert forall|k: Seq<char>| self.map().contains_key(k) implies exists|i: int| 0 <= i < out@.len() && #[trigger] out@[i].0@ == k by {
                let j = choose|j: int| 0 <= j < self.entries@.len() && self.entries@[j].0@ == k;
                assert(out@[j].0@ == k);
            }
            assert forall|i: int| #![trigger out@[i]] 0 <= i < out@.len() implies self.map()[out@[i].0@] == out@[i].1 by {
                assert(self.entries@[i].0@ == out@[i].0@);
            }
        }
        out
    }

    /// The encoded counters: their number, then for each the byte length of
    /// its name, the name in UTF-8 and the value, all integers little-endian.
    pub fn encode(&self) -> (r: Vec<u8>)
        requires
            self.wf(),
        ensures
            r@ == counters_bytes(self.list()),
            decode_counters(r@) == Some(self.map()),
    {
        let mut buf: Vec<u8> = Vec::new();
        let len = self.entries.len();
        put_u64(&mut buf, len as u64);
        let mut i: usize = 0;
        let ghost l = self.list();
        proof {
            assert(l.subrange(0, 0) =~= Seq::<(Seq<char>, u64)>::empty());
        }
        while i < self.entries.len()
            invariant
                self.wf(),
                l == self.list(),
                len == self.entries@.len(),
                0 <= i <= self.entries@.len(),
                buf@ == spec_u64_to_le_bytes(len as u64) + counters_body(l.subrange(0, i as int)),
                forall|j: int| 0 <= j < i ==> encode_utf8(#[trigger] l[j].0).len() <= u64::MAX,
            decreases self.entries@.len() - i,
        {
            let name = self.entries[i].0.as_str();
            let b = name.as_bytes();
            let blen = b.len();
            put_u64(&mut buf, blen as u64);
            put_bytes(&mut buf, b);
            put_u64(&mut buf, self.entries[i].1);
            proof {
                assert(l[i as int] == (self.entries@[i as int].0@, self.entries@[i as int].1));
                assert(l.subrange(0, i + 1).drop_last() =~= l.subrange(0, i as int));
                assert(buf@ =~= spec_u64_to_le_bytes(len as u64) + counters_body(l.subrange(0, i + 1)));
            }
            i = i + 1;
        }
        proof {
            assert(l.subrange(0, len as int) =~= l);
            lemma_counters_round_trip(l);
            self.lemma_list_map();
        }
        buf
    }

    proof fn lemma_list_map(&self)
        requires
            self.wf(),
        ensures
            counters_map(self.list()) == self.map(),
    {
        let l = self.list();
        self.lemma_prefix_map(l.len() as int);
        assert(l.subrange(0, l.len() as int) =~= l);
        assert(counters_map(l) =~= self.map()) by {
            assert forall|k: Seq<char>| self.map().contains_key(k) implies #[trigger] counters_map(l).contains_key(k) by {
                let i = choose|i: int| 0 <= i < self.entries@.len() && self.entries@[i].0@ == k;
                assert(l[i].0 == k);
            }
            assert forall|k: Seq<char>| #[trigger] counters_map(l).contains_key(k) implies counters_map(l)[k] == self.map()[k] by {
                let j = choose|j: int| 0 <= j < l.len() && l[j].0 == k;
                assert(self.entries@[j].0@ == k);
            }
        }
    }

    proof fn lemma_prefix_map(&self, n: int)
        requires
            self.wf(),
            0 <= n <= self.list().len(),
        ensures
            forall|k: Seq<char>| #[trigger] counters_map(self.list().subrange(0, n)).contains_key(k) <==> exists|j: int| 0 <= j < n && self.list()[j].0 == k,
            forall|j: int| 0 <= j < n ==> #[trigger] counters_map(self.list().subrange(0, n))[self.list()[j].0] == self.list()[j].1,
        decreases n,
    {
        let l = self.list();
        assert forall|j: int| 0 <= j < l.len() implies #[trigger] l[j] == (self.entries@[j].0@, self.entries@[j].1) by {}
        if n > 0 {
            self.lemma_prefix_map(n - 1);
            let s = l.subrange(0, n);
            assert(s.drop_last() =~= l.subrange(0, n - 1));
            assert(s.last() == l[n - 1]);
            assert(counters_map(s) == counters_map(l.subrange(0, n - 1)).insert(l[n - 1].0, l[n - 1].1));
            assert forall|k: Seq<char>| #[trigger] counters_map(s).contains_key(k) <==> exists|j: int| 0 <= j < n && l[j].0 == k by {
                if counters_map(s).contains_key(k) && k != l[n - 1].0 {
                    let j = choose|j: int| 0 <= j < n - 1 && l[j].0 == k;
                }
                if exists|j: int| 0 <= j < n && l[j].0 == k {
                    let j = choose|j: int| 0 <= j < n && l[j].0 == k;
                    if j < n - 1 {
                        assert(counters_map(l.subrange(0, n - 1)).contains_key(k));
                    }
                }
            }
            assert forall|j: int| 0 <= j < n implies #[trigger] counters_map(s)[l[j].0] == l[j].1 by {
                if j < n - 1 {
                    assert(self.entries@[j].0@ != self.entries@[n - 1].0@);
                }
            }
        }
    }

    /// Decodes counters; malformed bytes are `CorruptedState`. A name that
    /// occurs twice keeps its later value.
    pub fn decode(bytes: &[u8]) -> (r: Result<KeyspaceCounters, CorruptedState>)
        ensures
            r is Ok <==> decode_counters(bytes@) is Some,
            r matches Ok(c) ==> c.wf() && c.map() == decode_counters(bytes@)->Some_0,
    {
        let n = match get_u64(bytes, 0) {
            Some(n) => n,
            None => return Err(CorruptedState),
        };
        let mut out = KeyspaceCounters::new();
        let mut pos: usize = 8;
        let mut i: u64 = 0;
        let ghost b = bytes@;
        let ghost mut done: Seq<(Seq<char>, u64)> = Seq::empty();
        while i < n
            invariant
                b == bytes@,
                b.len() >= 8,
                n == spec_u64_from_le_bytes(b.subrange(0, 8)),
                0 <= i <= n,
                8 <= pos <= b.len(),
                out.wf(),
                out.map() == counters_map(done),
                parse_counters(b, 8, n as nat) == match parse_counters(b, pos as int, (n - i) as nat) {
                    Some(rest) => Some(done + rest),
                    None => None::<Seq<(Seq<char>, u64)>>,
                },
            decreases n - i,
        {
            let l = match get_u64(bytes, pos) {
                Some(l) => l,
                None => return Err(CorruptedState),
            };
            if l > (bytes.len() - pos - 8) as u64 || bytes.len() - pos - 8 - (l as usize) < 8 {
                return Err(CorruptedState);
            }
            let lu = l as usize;
            let nb = slice_subrange(bytes, pos + 8, pos + 8 + lu);
            let name = match utf8_string(nb) {
                Some(s) => s,
                None => return Err(CorruptedState),
            };
            let v = get_u64(bytes, pos + 8 + lu).unwrap();
            proof {
                let rest_n = (n - i - 1) as nat;
                let tail = parse_counters(b, pos + 16 + lu, rest_n);
                assert(parse_counters(b, pos as int, (n - i) as nat) == match tail {
                    Some(rest) => Some(seq![(name@, v)] + rest),
                    None => None::<Seq<(Seq<char>, u64)>>,
                });
                let d2 = done.push((name@, v));
                if tail is Some {
                    assert(done + (seq![(name@, v)] + tail->Some_0) =~= d2 + tail->Some_0);
                }
                assert(d2.drop_last() =~= done);
                done = d2;
            }
            out.set(name.as_str(), v);
            pos = pos + 16 + lu;
            i = i + 1;
        }
        if pos != bytes.len() {
            return Err(CorruptedState);
        }
        proof {
            assert(done + Seq::<(Seq<char>, u64)>::empty() =~= done);
        }
        Ok(out)
    }
}

/// The counter of `name` in `m`, 0 when `m` has none.
pub open spec fn counter_of(m: Map<Seq<char>, u64>, name: Seq<char>) -> u64 {
    if m.contains_key(name) {
        m[name]
    } else {
        0
    }
}

/// Decoding the encoding of a list of counters gives back that list.
proof fn lemma_counters_round_trip(es: Seq<(Seq<char>, u64)>)
    requires
        forall|i: int| 0 <= i < es.len() ==> encode_utf8(#[trigger] es[i].0).len() <= u64::MAX,
        es.len() <= u64::MAX,
    ensures
        decode_counters(counters_bytes(es)) == Some(counters_map(es)),
{
    lemma_auto_spec_u64_to_from_le_bytes();
    lemma_body_same(es);
    let head = spec_u64_to_le_bytes(es.len() as u64);
    lemma_parse_counters_suffix(head, es);
    let b = counters_bytes(es);
    assert(b.subrange(0, 8) =~= head);
}

/// Decoding encoded counters gives back the same counter map.
pub proof fn lemma_counters_codec_round_trip(c: &KeyspaceCounters, bytes: Seq<u8>)
    requires
        c.wf(),
        bytes == counters_bytes(c.list()),
        c.list().len() <= u64::MAX,
        forall|i: int| 0 <= i < c.list().len() ==> encode_utf8(#[trigger] c.list()[i].0).len() <= u64::MAX,
    ensures
        decode_counters(bytes) == Some(c.map()),
{
    lemma_counters_round_trip(c.list());
    c.lemma_list_map();
}

} // verus!
