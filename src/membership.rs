use crate::selector::{view_nodes, NodeAddr, Topology};
use vstd::prelude::*;

verus! {

/// A member of the cluster as the membership layer reports it.
pub struct ClusterMember {
    pub node_id: String,
    pub public_addr: NodeAddr,
    pub data_center: String,
}

pub open spec fn member_dc_view(ms: Seq<ClusterMember>) -> Seq<(Seq<char>, NodeAddr)> {
    ms.map_values(|m: ClusterMember| (m.data_center@, m.public_addr))
}

pub open spec fn member_id_view(ms: Seq<ClusterMember>) -> Seq<(Seq<char>, NodeAddr)> {
    ms.map_values(|m: ClusterMember| (m.node_id@, m.public_addr))
}

/// A member's node id, address and data center.
pub open spec fn member_view(m: ClusterMember) -> (Seq<char>, NodeAddr, Seq<char>) {
    (m.node_id@, m.public_addr, m.data_center@)
}

pub open spec fn members_view(ms: Seq<ClusterMember>) -> Seq<(Seq<char>, NodeAddr, Seq<char>)> {
    ms.map_values(|m: ClusterMember| member_view(m))
}

/// The members of `ms` whose node id is not `id`, in order.
pub open spec fn others(ms: Seq<(Seq<char>, NodeAddr, Seq<char>)>, id: Seq<char>) -> Seq<(Seq<char>, NodeAddr, Seq<char>)>
    decreases ms.len(),
{
    if ms.len() == 0 {
        Seq::empty()
    } else if ms.last().0 == id {
        others(ms.drop_last(), id)
    } else {
        others(ms.drop_last(), id).push(ms.last())
    }
}

/// The members other than the local node, whose id is `self_id`.
pub fn peers_of(members: &Vec<ClusterMember>, self_id: &str) -> (r: Vec<ClusterMember>)
    ensures
        members_view(r@) == others(members_view(members@), self_id@),
{
    let me = self_id.to_owned();
    let ghost mv = members_view(members@);
    let mut out: Vec<ClusterMember> = Vec::new();
    let mut i: usize = 0;
    while i < members.len()
        invariant
            me@ == self_id@,
            mv == members_view(members@),
            0 <= i <= members@.len(),
            members_view(out@) == others(mv.take(i as int), self_id@),
        decreases members@.len() - i,
    {
        proof {
            assert(mv.take(i + 1).drop_last() =~= mv.take(i as int));
            assert(mv.take(i + 1).last() == member_view(members@[i as int]));
        }
        let m = &members[i];
        if m.node_id != me {
            let ghost o0 = members_view(out@);
            let c = ClusterMember {
                node_id: m.node_id.clone(),
                public_addr: m.public_addr,
                data_center: m.data_center.clone(),
            };
            assert(member_view(c) == member_view(members@[i as int]));
            out.push(c);
            assert(members_view(out@) =~= o0.push(member_view(c)));
        }
        i = i + 1;
    }
    assert(mv.take(members@.len() as int) =~= mv);
    out
}

/// The topology of a member list: each member's data center and address, in
/// the order of the list.
pub fn topology_of(members: &Vec<ClusterMember>) -> (r: Topology)
    ensures
        view_nodes(r.nodes@) == member_dc_view(members@),
{
    let mut t = Topology::new();
    let mut i: usize = 0;
    while i < members.len()
        invariant
            0 <= i <= members@.len(),
            view_nodes(t.nodes@) == member_dc_view(members@).take(i as int),
        decreases members@.len() - i,
    {
        let ghost v0 = view_nodes(t.nodes@);
        let dc = members[i].data_center.clone();
        let ghost e = (dc@, members@[i as int].public_addr);
        assert(e == member_dc_view(members@)[i as int]);
        t.nodes.push((dc, members[i].public_addr));
        proof {
            assert(view_nodes(t.nodes@) =~= v0.push(e));
            assert(member_dc_view(members@).take(i + 1) =~= member_dc_view(members@).take(i as int).push(e));
        }
        i = i + 1;
    }
    assert(member_dc_view(members@).take(members@.len() as int) =~= member_dc_view(members@));
    t
}

/// The identities `(node id, address)` of a member list.
pub fn member_ids(members: &Vec<ClusterMember>) -> (r: Vec<(String, NodeAddr)>)
    ensures
        view_nodes(r@) == member_id_view(members@),
{
    let mut out: Vec<(String, NodeAddr)> = Vec::new();
    let mut i: usize = 0;
    while i < members.len()
        invariant
            0 <= i <= members@.len(),
            view_nodes(out@) == member_id_view(members@).take(i as int),
        decreases members@.len() - i,
    {
        let ghost v0 = view_nodes(out@);
        let id = members[i].node_id.clone();
        let ghost e = (id@, members@[i as int].public_addr);
        assert(e == member_id_view(members@)[i as int]);
        out.push((id, members[i].public_addr));
        proof {
            assert(view_nodes(out@) =~= v0.push(e));
            assert(member_id_view(members@).take(i + 1) =~= member_id_view(members@).take(i as int).push(e));
        }
        i = i + 1;
    }
    assert(member_id_view(members@).take(members@.len() as int) =~= member_id_view(members@));
    out
}

fn contains_id(list: &Vec<(String, NodeAddr)>, id: &(String, NodeAddr)) -> (r: bool)
    ensures
        r == view_nodes(list@).contains((id.0@, id.1)),
{
    let ghost s = view_nodes(list@);
    let mut i: usize = 0;
    while i < list.len()
        invariant
            s == view_nodes(list@),
            0 <= i <= list@.len(),
            forall|j: int| 0 <= j < i ==> s[j] != (id.0@, id.1),
        decreases list@.len() - i,
    {
        if list[i].0 == id.0 && list[i].1 == id.1 {
            assert(s[i as int] == (id.0@, id.1));
            return true;
        }
        i = i + 1;
    }
    false
}

/// The identities of `a` that `b` lacks, in the order of `a`.
pub fn missing_from(a: &Vec<(String, NodeAddr)>, b: &Vec<(String, NodeAddr)>) -> (r: Vec<(String, NodeAddr)>)
    ensures
        forall|p: (Seq<char>, NodeAddr)| #[trigger] view_nodes(r@).contains(p) <==> view_nodes(a@).contains(p)
            && !view_nodes(b@).contains(p),
{
    let ghost sa = view_nodes(a@);
    let mut out: Vec<(String, NodeAddr)> = Vec::new();
    let mut i: usize = 0;
    while i < a.len()
        invariant
            sa == view_nodes(a@),
            0 <= i <= a@.len(),
            forall|p: (Seq<char>, NodeAddr)| #[trigger] view_nodes(out@).contains(p) <==> sa.take(i as int).contains(p)
                && !view_nodes(b@).contains(p),
        decreases a@.len() - i,
    {
        let ghost o0 = view_nodes(out@);
        let ghost e = sa[i as int];
        proof {
            assert(sa.take(i + 1) =~= sa.take(i as int).push(e));
        }
        if !contains_id(b, &a[i]) {
            let id = a[i].0.clone();
            assert((id@, a@[i as int].1) == e);
            out.push((id, a[i].1));
            proof {
                assert(view_nodes(out@) =~= o0.push(e));
                assert forall|p: (Seq<char>, NodeAddr)| #[trigger] view_nodes(out@).contains(p) <==> sa.take(i + 1).contains(p)
                    && !view_nodes(b@).contains(p) by {
                    if p != e {
                        if view_nodes(out@).contains(p) {
                            let k = choose|k: int| 0 <= k < view_nodes(out@).len() && #[trigger] view_nodes(out@)[k] == p;
                            assert(o0[k] == p);
                        }
                        if sa.take(i + 1).contains(p) {
                            let k = choose|k: int| 0 <= k < sa.take(i + 1).len() && #[trigger] sa.take(i + 1)[k] == p;
                            assert(sa.take(i as int)[k] == p);
                        }
                        if o0.contains(p) {
                            let k = choose|k: int| 0 <= k < o0.len() && o0[k] == p;
                            assert(view_nodes(out@)[k] == p);
                        }
                        if sa.take(i as int).contains(p) {
                            let k = choose|k: int| 0 <= k < sa.take(i as int).len() && #[trigger] sa.take(i as int)[k] == p;
                            assert(sa.take(i + 1)[k] == p);
                        }
                    } else {
                        assert(view_nodes(out@)[view_nodes(out@).len() - 1] == p);
                        assert(sa.take(i + 1)[i as int] == p);
                    }
                }
            }
        } else {
            proof {
                assert(view_nodes(out@) =~= o0);
                assert forall|p: (Seq<char>, NodeAddr)| #[trigger] view_nodes(out@).contains(p) <==> sa.take(i + 1).contains(p)
                    && !view_nodes(b@).contains(p) by {
                    if p != e {
                        if sa.take(i + 1).contains(p) {
                            let k = choose|k: int| 0 <= k < sa.take(i + 1).len() && #[trigger] sa.take(i + 1)[k] == p;
                            assert(sa.take(i as int)[k] == p);
                        }
                        if sa.take(i as int).contains(p) {
                            let k = choose|k: int| 0 <= k < sa.take(i as int).len() && #[trigger] sa.take(i as int)[k] == p;
                            assert(sa.take(i + 1)[k] == p);
                        }
                    }
                }
            }
        }
        i = i + 1;
    }
    assert(sa.take(a@.len() as int) =~= sa);
    out
}

/// What changed between two membership snapshots: the members that joined
/// and the members that left, by `(node id, address)`.
pub fn membership_changes(last: &Vec<(String, NodeAddr)>, new: &Vec<(String, NodeAddr)>) -> (r: (
    Vec<(String, NodeAddr)>,
    Vec<(String, NodeAddr)>,
))
    ensures
        forall|p: (Seq<char>, NodeAddr)| #[trigger] view_nodes(r.0@).contains(p) <==> view_nodes(new@).contains(p)
            && !view_nodes(last@).contains(p),
        forall|p: (Seq<char>, NodeAddr)| #[trigger] view_nodes(r.1@).contains(p) <==> view_nodes(last@).contains(p)
            && !view_nodes(new@).contains(p),
{
    (missing_from(new, last), missing_from(last, new))
}

} // verus!
