use vstd::prelude::*;

verus! {

/// A peer's public RPC address: an IPv6 address (IPv4 addresses mapped into
/// it) and a port.
#[derive(Clone, Copy, Debug, PartialEq, Eq, Structural, Hash)]
pub struct NodeAddr {
    pub ip: u128,
    pub port: u16,
}

/// How many replicas must acknowledge a write.
#[derive(Clone, Copy, Debug, PartialEq, Eq, Structural)]
pub enum Consistency {
    /// Apply locally only; contact no peer.
    LocalOnly,
    /// One peer, in any data center.
    One,
    /// One peer in the local data center.
    LocalOne,
    /// A majority of the peers in the local data center.
    LocalQuorum,
    /// A majority of all peers.
    Quorum,
    /// A majority of the peers of every data center.
    EachQuorum,
    /// Every known peer.
    All,
}

/// The time each peer call is given, in milliseconds.
pub const TIMEOUT_LIMIT_MS: u64 = 1000;

#[derive(Clone, Copy, Debug, PartialEq, Eq, Structural)]
pub enum ConsistencyError {
    /// The known peers cannot make up the requested level.
    NotEnoughNodes,
    /// Fewer peers acknowledged the change than were contacted.
    ConsistencyFailure { responses: usize, required: usize, timeout_ms: u64 },
}

/// The peers, each with its data center, in a stable order.
pub struct Topology {
    pub nodes: Vec<(String, NodeAddr)>,
}

pub open spec fn view_nodes(nodes: Seq<(String, NodeAddr)>) -> Seq<(Seq<char>, NodeAddr)> {
    nodes.map_values(|p: (String, NodeAddr)| (p.0@, p.1))
}

/// The addresses of the peers of data center `dc`, in order.
pub open spec fn local_nodes(s: Seq<(Seq<char>, NodeAddr)>, dc: Seq<char>) -> Seq<NodeAddr>
    decreases s.len(),
{
    if s.len() == 0 {
        Seq::empty()
    } else if s.last().0 == dc {
        local_nodes(s.drop_last(), dc).push(s.last().1)
    } else {
        local_nodes(s.drop_last(), dc)
    }
}

/// The number of peers of data center `dc`.
pub open spec fn dc_size(s: Seq<(Seq<char>, NodeAddr)>, dc: Seq<char>) -> nat {
    local_nodes(s, dc).len()
}

/// A majority of `n`.
pub open spec fn quorum(n: nat) -> nat {
    n / 2 + 1
}

/// The number of peers of data center `d` needed for a majority there; in
/// the local data center `dc` the local node counts as one.
pub open spec fn peers_needed(s: Seq<(Seq<char>, NodeAddr)>, d: Seq<char>, dc: Seq<char>) -> nat {
    if d == dc {
        (quorum(dc_size(s, d) + 1) - 1) as nat
    } else {
        quorum(dc_size(s, d))
    }
}

/// The first peers of each data center, as many as a majority there needs,
/// in order.
pub open spec fn each_quorum_upto(s: Seq<(Seq<char>, NodeAddr)>, dc: Seq<char>, n: int) -> Seq<NodeAddr>
    decreases n,
{
    if n <= 0 {
        Seq::empty()
    } else {
        let e = s[n - 1];
        if dc_size(s.take(n - 1), e.0) < peers_needed(s, e.0, dc) {
            each_quorum_upto(s, dc, n - 1).push(e.1)
        } else {
            each_quorum_upto(s, dc, n - 1)
        }
    }
}

/// The peers that `level` selects in topology `s` seen from data center `dc`,
/// or `None` when it cannot be met. The local node, which applies every
/// change itself, counts towards the majorities: a quorum of a cluster of
/// `n` peers and the local node needs `quorum(n + 1) - 1` peers.
pub open spec fn selection(s: Seq<(Seq<char>, NodeAddr)>, dc: Seq<char>, level: Consistency) -> Option<Seq<NodeAddr>> {
    let all = s.map_values(|p: (Seq<char>, NodeAddr)| p.1);
    let local = local_nodes(s, dc);
    match level {
        Consistency::LocalOnly => Some(Seq::empty()),
        Consistency::One => if all.len() == 0 { None } else { Some(all.take(1)) },
        Consistency::LocalOne => if local.len() == 0 { None } else { Some(local.take(1)) },
        Consistency::LocalQuorum => Some(local.take(quorum(local.len() + 1) - 1)),
        Consistency::Quorum => Some(all.take(quorum(all.len() + 1) - 1)),
        Consistency::EachQuorum => Some(each_quorum_upto(s, dc, s.len() as int)),
        Consistency::All => Some(all),
    }
}

impl Topology {
    pub fn new() -> (r: Topology)
        ensures
            r.nodes@.len() == 0,
    {
        Topology { nodes: Vec::new() }
    }

    /// The peers of data center `dc`, in order.
    fn local(&self, dc: &String) -> (r: Vec<NodeAddr>)
        ensures
            r@ == local_nodes(view_nodes(self.nodes@), dc@),
    {
        let ghost s = view_nodes(self.nodes@);
        let mut out: Vec<NodeAddr> = Vec::new();
        let mut i: usize = 0;
        while i < self.nodes.len()
            invariant
                s == view_nodes(self.nodes@),
                0 <= i <= self.nodes@.len(),
                out@ == local_nodes(s.take(i as int), dc@),
            decreases self.nodes@.len() - i,
        {
            proof {
                assert(s.take(i + 1).drop_last() =~= s.take(i as int));
            }
            if self.nodes[i].0 == *dc {
                out.push(self.nodes[i].1);
            }
            i = i + 1;
        }
        assert(s.take(self.nodes@.len() as int) =~= s);
        out
    }

    /// The number of the first `n` peers that belong to data center `dc`.
    fn count_in(&self, dc: &String, n: usize) -> (r: usize)
        requires
            n <= self.nodes@.len(),
        ensures
            r == dc_size(view_nodes(self.nodes@).take(n as int), dc@),
    {
        let ghost s = view_nodes(self.nodes@);
        let mut c: usize = 0;
        let mut i: usize = 0;
        while i < n
            invariant
                s == view_nodes(self.nodes@),
                n <= self.nodes@.len(),
                0 <= i <= n,
                c == dc_size(s.take(i as int), dc@),
                c <= i,
            decreases n - i,
        {
            proof {
                assert(s.take(i + 1).drop_last() =~= s.take(i as int));
            }
            if self.nodes[i].0 == *dc {
                c = c + 1;
            }
            i = i + 1;
        }
        c
    }

    /// The peers that `level` asks for, as seen from data center `local_dc`;
    /// `NotEnoughNodes` when the known peers cannot make up that level.
    pub fn get_nodes(&self, local_dc: &str, level: Consistency) -> (r: Result<Vec<NodeAddr>, ConsistencyError>)
        ensures
            selection(view_nodes(self.nodes@), local_dc@, level) matches Some(sel) ==> r matches Ok(v) && v@ == sel,
            selection(view_nodes(self.nodes@), local_dc@, level) is None ==> r == Err::<Vec<NodeAddr>, ConsistencyError>(ConsistencyError::NotEnoughNodes),
    {
        let ghost s = view_nodes(self.nodes@);
        let ghost all_spec = s.map_values(|p: (Seq<char>, NodeAddr)| p.1);
        let dc = local_dc.to_owned();
        let mut all: Vec<NodeAddr> = Vec::new();
        let mut i: usize = 0;
        while i < self.nodes.len()
            invariant
                s == view_nodes(self.nodes@),
                all_spec == s.map_values(|p: (Seq<char>, NodeAddr)| p.1),
                0 <= i <= self.nodes@.len(),
                all@ == all_spec.take(i as int),
            decreases self.nodes@.len() - i,
        {
            all.push(self.nodes[i].1);
            i = i + 1;
            proof {
                assert(all@ =~= all_spec.take(i as int));
            }
        }
        assert(all_spec.take(self.nodes@.len() as int) =~= all_spec);
        match level {
            Consistency::LocalOnly => Ok(Vec::new()),
            Consistency::One => {
                if all.len() == 0 {
                    Err(ConsistencyError::NotEnoughNodes)
                } else {
                    Ok(take_prefix(&all, 1))
                }
            },
            Consistency::LocalOne => {
                let local = self.local(&dc);
                if local.len() == 0 {
                    Err(ConsistencyError::NotEnoughNodes)
                } else {
                    Ok(take_prefix(&local, 1))
                }
            },
            Consistency::LocalQuorum => {
                let local = self.local(&dc);
                Ok(take_prefix(&local, (local.len() - local.len() / 2) as usize))
            },
            Consistency::Quorum => Ok(take_prefix(&all, (all.len() - all.len() / 2) as usize)),
            Consistency::EachQuorum => Ok(self.each_quorum(&dc)),
            Consistency::All => Ok(all),
        }
    }

    fn each_quorum(&self, local_dc: &String) -> (r: Vec<NodeAddr>)
        ensures
            r@ == each_quorum_upto(view_nodes(self.nodes@), local_dc@, self.nodes@.len() as int),
    {
        let ghost s = view_nodes(self.nodes@);
        let mut out: Vec<NodeAddr> = Vec::new();
        let mut i: usize = 0;
        while i < self.nodes.len()
            invariant
                s == view_nodes(self.nodes@),
                0 <= i <= self.nodes@.len(),
                out@ == each_quorum_upto(s, local_dc@, i as int),
            decreases self.nodes@.len() - i,
        {
            let dc = &self.nodes[i].0;
            let before = self.count_in(dc, i);
            let total = self.count_in(dc, self.nodes.len());
            proof {
                assert(s.take(self.nodes@.len() as int) =~= s);
            }
            let needed = if *dc == *local_dc { total - total / 2 } else { total / 2 + 1 };
            if before < needed {
                out.push(self.nodes[i].1);
            }
            i = i + 1;
        }
        out
    }
}

/// The first `n` elements of `v` (all of them when it is shorter).
fn take_prefix(v: &Vec<NodeAddr>, n: usize) -> (r: Vec<NodeAddr>)
    requires
        n <= v@.len(),
    ensures
        r@ == v@.take(n as int),
{
    let mut out: Vec<NodeAddr> = Vec::new();
    let mut i: usize = 0;
    while i < n
        invariant
            n <= v@.len(),
            0 <= i <= n,
            out@ == v@.take(i as int),
        decreases n - i,
    {
        out.push(v[i]);
        i = i + 1;
        proof {
            assert(out@ =~= v@.take(i as int));
        }
    }
    out
}

/// The number of `true` values in `s`.
pub open spec fn count_true(s: Seq<bool>) -> nat
    decreases s.len(),
{
    if s.len() == 0 {
        0
    } else {
        count_true(s.drop_last()) + if s.last() { 1nat } else { 0nat }
    }
}

/// The outcome of a write, from whether each contacted peer acknowledged it.
/// The local apply, which succeeded before any peer was contacted, counts as
/// one response: success when every peer acknowledged, else
/// `ConsistencyFailure` with the responses and the responses required.
pub fn consistency_outcome(acks: &Vec<bool>) -> (r: Result<(), ConsistencyError>)
    requires
        acks@.len() < usize::MAX,
    ensures
        count_true(acks@) == acks@.len() ==> r is Ok,
        count_true(acks@) != acks@.len() ==> r == Err::<(), ConsistencyError>(
            ConsistencyError::ConsistencyFailure {
                responses: (count_true(acks@) + 1) as usize,
                required: (acks@.len() + 1) as usize,
                timeout_ms: TIMEOUT_LIMIT_MS,
            },
        ),
{
    let mut n: usize = 0;
    let mut i: usize = 0;
    while i < acks.len()
        invariant
            0 <= i <= acks@.len(),
            acks@.len() < usize::MAX,
            n == count_true(acks@.take(i as int)),
            n <= i,
        decreases acks@.len() - i,
    {
        proof {
            assert(acks@.take(i + 1).drop_last() =~= acks@.take(i as int));
        }
        if acks[i] {
            n = n + 1;
        }
        i = i + 1;
    }
    assert(acks@.take(acks@.len() as int) =~= acks@);
    if n != acks.len() {
        Err(
            ConsistencyError::ConsistencyFailure {
                responses: n + 1,
                required: acks.len() + 1,
                timeout_ms: TIMEOUT_LIMIT_MS,
            },
        )
    } else {
        Ok(())
    }
}

} // verus!
