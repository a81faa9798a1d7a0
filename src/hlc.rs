use vstd::prelude::*;
use vstd::string::StringSliceAdditionalSpecFns;

verus! {

/// A hybrid logical timestamp: wall-clock milliseconds, a logical counter that
/// orders events within one millisecond, and the id of the node that made it.
/// The causal order used by the library is `precedes`; the derived
/// orderings serve only for sorting.
#[derive(Clone, Copy, Debug, PartialEq, Eq, Structural, PartialOrd, Ord, Hash)]
pub struct Hlc {
    pub millis: u64,
    pub counter: u32,
    pub node: u32,
}

impl Hlc {
    /// Lexicographic order on `(millis, counter, node)`.
    pub open spec fn precedes(self, other: Hlc) -> bool {
        self.millis < other.millis || (self.millis == other.millis && (self.counter
            < other.counter || (self.counter == other.counter && self.node < other.node)))
    }

    pub fn new(millis: u64, counter: u32, node: u32) -> (r: Hlc)
        ensures
            r == (Hlc { millis, counter, node }),
    {
        Hlc { millis, counter, node }
    }

    /// Whether `self` comes strictly before `other`.
    pub fn is_before(&self, other: &Hlc) -> (r: bool)
        ensures
            r == self.precedes(*other),
    {
        self.millis < other.millis || (self.millis == other.millis && (self.counter
            < other.counter || (self.counter == other.counter && self.node < other.node)))
    }
}

/// The order on timestamps is transitive.
pub proof fn lemma_precedes_transitive(a: Hlc, b: Hlc, c: Hlc)
    requires
        a.precedes(b),
        b.precedes(c),
    ensures
        a.precedes(c),
{
}

/// The order on timestamps is total: two timestamps are equal or one precedes
/// the other, and never both ways.
pub proof fn lemma_precedes_total(a: Hlc, b: Hlc)
    ensures
        a == b || a.precedes(b) || b.precedes(a),
        !(a.precedes(b) && b.precedes(a)),
        !a.precedes(a),
{
}

/// The logical counter would leave its range within one millisecond.
#[derive(Clone, Copy, Debug, PartialEq, Eq, Structural)]
pub struct ClockOverflow;

/// The clock of one node. It remembers the last timestamp it handed out or
/// absorbed; every timestamp it produces comes strictly after that one.
pub struct Clock {
    last_ms: u64,
    counter: u32,
    node: u32,
}

/// The crc32 checksum of a byte string.
pub uninterp spec fn crc32_of(bytes: Seq<u8>) -> u32;

/// Relies on crc32fast::hash: the CRC-32 checksum of the bytes, which depends
/// on the bytes alone.
#[verifier::external_body]
fn crc32(bytes: &[u8]) -> (r: u32)
    ensures
        r == crc32_of(bytes@),
{
    crc32fast::hash(bytes)
}

/// The node id derived from a node's name: the crc32 checksum of its UTF-8 bytes.
pub fn node_id_of(name: &str) -> (r: u32)
    ensures
        r == crc32_of(name.spec_bytes()),
{
    crc32(name.as_bytes())
}

impl Clock {
    /// The last timestamp this clock handed out or absorbed.
    pub closed spec fn last(&self) -> Hlc {
        Hlc { millis: self.last_ms, counter: self.counter, node: self.node }
    }

    /// A clock for the node with the given id, before any event.
    pub fn new(node: u32) -> (r: Clock)
        ensures
            r.last() == (Hlc { millis: 0, counter: 0, node }),
    {
        Clock { last_ms: 0, counter: 0, node }
    }

    /// A clock for the node with the given name; its id is `node_id_of(name)`.
    pub fn for_node(name: &str) -> (r: Clock)
        ensures
            r.last() == (Hlc { millis: 0, counter: 0, node: crc32_of(name.spec_bytes()) }),
    {
        Clock::new(node_id_of(name))
    }

    pub fn node(&self) -> (r: u32)
        ensures
            r == self.last().node,
    {
        self.node
    }

    /// A new timestamp, given the wall clock reading `wall`: `(wall, 0)` when the
    /// wall clock has moved past the last timestamp, else the last one with its
    /// counter raised by one.
    pub fn now_at(&mut self, wall: u64) -> (r: Result<Hlc, ClockOverflow>)
        ensures
            wall > old(self).last().millis ==> r == Ok::<Hlc, ClockOverflow>(
                Hlc { millis: wall, counter: 0, node: old(self).last().node },
            ),
            wall <= old(self).last().millis && old(self).last().counter < u32::MAX ==> r == Ok::<
                Hlc,
                ClockOverflow,
            >(Hlc { millis: old(self).last().millis, counter: (old(self).last().counter + 1) as u32, node: old(self).last().node }),
            wall <= old(self).last().millis && old(self).last().counter == u32::MAX ==> r == Err::<
                Hlc,
                ClockOverflow,
            >(ClockOverflow),
            r is Ok ==> final(self).last() == r->Ok_0 && old(self).last().precedes(r->Ok_0),
            r is Err ==> final(self).last() == old(self).last(),
    {
        if wall > self.last_ms {
            self.last_ms = wall;
            self.counter = 0;
        } else if self.counter < u32::MAX {
            self.counter = self.counter + 1;
        } else {
            return Err(ClockOverflow);
        }
        Ok(Hlc { millis: self.last_ms, counter: self.counter, node: self.node })
    }

    /// Absorbs a timestamp seen on another node, at wall clock reading `wall`.
    /// The millisecond part becomes the largest of the last one, `wall` and the
    /// remote one; the counter continues from whichever side set it (the larger
    /// of both when both did), or restarts at zero when the wall clock set it.
    /// The new timestamp comes after both the last local one and the remote one.
    pub fn observe_at(&mut self, remote: &Hlc, wall: u64) -> (r: Result<Hlc, ClockOverflow>)
        ensures
            r is Ok ==> {
                &&& final(self).last() == r->Ok_0
                &&& old(self).last().precedes(r->Ok_0)
                &&& remote.precedes(r->Ok_0)
                &&& r->Ok_0.node == old(self).last().node
                &&& r->Ok_0.millis == max3(old(self).last().millis, wall, remote.millis)
                &&& r->Ok_0.counter == observed_counter(old(self).last(), *remote, wall)
            },
            r is Err <==> observed_counter_overflows(old(self).last(), *remote, wall),
            r is Err ==> final(self).last() == old(self).last(),
    {
        let local_ms = self.last_ms;
        let mut ms = if local_ms > wall { local_ms } else { wall };
        if remote.millis > ms {
            ms = remote.millis;
        }
        let counter: u32;
        if ms == local_ms && ms == remote.millis {
            let c = if self.counter > remote.counter { self.counter } else { remote.counter };
            if c == u32::MAX {
                return Err(ClockOverflow);
            }
            counter = c + 1;
        } else if ms == local_ms {
            if self.counter == u32::MAX {
                return Err(ClockOverflow);
            }
            counter = self.counter + 1;
        } else if ms == remote.millis {
            if remote.counter == u32::MAX {
                return Err(ClockOverflow);
            }
            counter = remote.counter + 1;
        } else {
            counter = 0;
        }
        self.last_ms = ms;
        self.counter = counter;
        Ok(Hlc { millis: ms, counter, node: self.node })
    }
}

pub open spec fn max3(a: u64, b: u64, c: u64) -> u64 {
    let ab = if a > b { a } else { b };
    if c > ab { c } else { ab }
}

/// The counter part of the timestamp that absorbing `remote` at `wall` yields
/// on a clock whose last timestamp is `local`.
pub open spec fn observed_counter(local: Hlc, remote: Hlc, wall: u64) -> int {
    let ms = max3(local.millis, wall, remote.millis);
    if ms == local.millis && ms == remote.millis {
        (if local.counter > remote.counter { local.counter } else { remote.counter }) + 1
    } else if ms == local.millis {
        local.counter + 1
    } else if ms == remote.millis {
        remote.counter + 1
    } else {
        0
    }
}

pub open spec fn observed_counter_overflows(local: Hlc, remote: Hlc, wall: u64) -> bool {
    observed_counter(local, remote, wall) > u32::MAX
}

} // verus!
