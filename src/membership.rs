//! Decisions of the membership controller, which keeps the cluster in step
//! with the discovery service: how registration proceeds, which node ids a
//! listing names, and what a leader asks of the consensus engine.
use vstd::prelude::*;

use vstd::string::StrSliceExecFns;

use crate::network::{MyRaftNetwork, adds_of, listing_view, table_after};
use crate::types::NodeId;

verus! {

pub open spec fn is_digit(c: char) -> bool {
    '0' <= c && c <= '9'
}

/// The value of a decimal digit.
pub open spec fn digit_value(c: char) -> nat {
    (c as u32 - '0' as u32) as nat
}

/// The number that a string of decimal digits denotes.
pub open spec fn decimal_value(s: Seq<char>) -> nat
    decreases s.len(),
{
    if s.len() == 0 {
        0
    } else {
        decimal_value(s.drop_last()) * 10 + digit_value(s.last())
    }
}

/// A child name that stands for a node id: decimal digits, not too many.
pub open spec fn is_node_name(s: Seq<char>) -> bool {
    &&& s.len() > 0
    &&& forall|i: int| 0 <= i < s.len() ==> is_digit(#[trigger] s[i])
    &&& decimal_value(s) <= u64::MAX
}

proof fn lemma_decimal_grows(s: Seq<char>, c: char)
    requires
        is_digit(c),
    ensures
        decimal_value(s.push(c)) >= decimal_value(s),
{
    assert(s.push(c).drop_last() =~= s);
}

proof fn lemma_decimal_prefix(s: Seq<char>, k: int)
    requires
        0 <= k <= s.len(),
        forall|i: int| 0 <= i < s.len() ==> is_digit(#[trigger] s[i]),
    ensures
        decimal_value(s.subrange(0, k)) <= decimal_value(s),
    decreases s.len() - k,
{
    if k < s.len() {
        lemma_decimal_prefix(s, k + 1);
        assert(s.subrange(0, k + 1).drop_last() =~= s.subrange(0, k));
        lemma_decimal_grows(s.subrange(0, k), s[k]);
        assert(s.subrange(0, k + 1) =~= s.subrange(0, k).push(s[k]));
    } else {
        assert(s.subrange(0, k) =~= s);
    }
}

/// The node id that a child of the cluster's path is named after, or `None`
/// where the name is not one.
pub fn parse_node_id(name: &str) -> (r: Option<NodeId>)
    ensures
        r is Some <==> is_node_name(name@),
        r matches Some(id) ==> id as nat == decimal_value(name@),
{
    let n = name.unicode_len();
    if n == 0 {
        return None;
    }
    let mut acc: u64 = 0;
    let mut i: usize = 0;
    while i < n
        invariant
            n == name@.len(),
            0 <= i <= n,
            acc as nat == decimal_value(name@.subrange(0, i as int)),
            forall|j: int| 0 <= j < i ==> is_digit(#[trigger] name@[j]),
        decreases n - i,
    {
        let c = name.get_char(i);
        let ghost pre = name@.subrange(0, i as int);
        let ghost next = name@.subrange(0, i + 1);
        proof {
            assert(next.drop_last() =~= pre);
            assert(next.last() == c);
        }
        if !('0' <= c && c <= '9') {
            return None;
        }
        let d = (c as u32 - '0' as u32) as u64;
        let step = match acc.checked_mul(10) {
            Some(m) => m.checked_add(d),
            None => None,
        };
        match step {
            Some(v) => {
                acc = v;
            },
            None => {
                proof {
                    assert(decimal_value(next) > u64::MAX);
                    if forall|j: int| 0 <= j < n ==> is_digit(#[trigger] name@[j]) {
                        lemma_decimal_prefix(name@, i + 1);
                    }
                }
                return None;
            },
        }
        i = i + 1;
    }
    assert(name@.subrange(0, n as int) =~= name@);
    Some(acc)
}

/// A path that registration creates.
#[derive(Clone, Copy, Debug, PartialEq, Eq, Structural)]
pub enum ZPath {
    /// `/raft`
    Root,
    /// `/raft/<cluster_id>`
    Cluster,
    /// `/raft/<cluster_id>/<node_id>`, holding the node's address.
    Node,
}

/// What the discovery service answered to a create.
#[derive(Clone, Copy, Debug, PartialEq, Eq, Structural)]
pub enum CreateOutcome {
    Created,
    NodeExists,
    NoNode,
    /// Any other failure; it is retried.
    Failed,
}

/// What registration does next.
#[derive(Clone, Copy, Debug, PartialEq, Eq, Structural)]
pub enum JoinStep {
    /// Create this path.
    Create(ZPath),
    /// Wait, then create this path again.
    Retry(ZPath),
    /// The node's own path exists: registration is done.
    Joined,
}

/// The registration step that follows creating `tried` with `outcome`: a path
/// that exists (made now or before) lets the path below it be created, down
/// to the node's own; a missing parent is created first.
pub open spec fn join_step(tried: ZPath, outcome: CreateOutcome) -> JoinStep {
    match outcome {
        CreateOutcome::Failed => JoinStep::Retry(tried),
        CreateOutcome::Created | CreateOutcome::NodeExists => match tried {
            ZPath::Node => JoinStep::Joined,
            ZPath::Cluster => JoinStep::Create(ZPath::Node),
            ZPath::Root => JoinStep::Create(ZPath::Cluster),
        },
        CreateOutcome::NoNode => match tried {
            ZPath::Node => JoinStep::Create(ZPath::Cluster),
            ZPath::Cluster => JoinStep::Create(ZPath::Root),
            ZPath::Root => JoinStep::Retry(ZPath::Root),
        },
    }
}

/// The next registration step; registration starts by creating the node's path.
pub fn next_join_step(tried: ZPath, outcome: CreateOutcome) -> (r: JoinStep)
    ensures
        r == join_step(tried, outcome),
{
    match outcome {
        CreateOutcome::Failed => JoinStep::Retry(tried),
        CreateOutcome::Created | CreateOutcome::NodeExists => match tried {
            ZPath::Node => JoinStep::Joined,
            ZPath::Cluster => JoinStep::Create(ZPath::Node),
            ZPath::Root => JoinStep::Create(ZPath::Cluster),
        },
        CreateOutcome::NoNode => match tried {
            ZPath::Node => JoinStep::Create(ZPath::Cluster),
            ZPath::Cluster => JoinStep::Create(ZPath::Root),
            ZPath::Root => JoinStep::Retry(ZPath::Root),
        },
    }
}

/// The listing that discovery gives: each child named after a node id,
/// with the address it holds. `None` where a child's name is not a node id.
pub fn build_listing(children: &Vec<(String, String)>) -> (r: Option<Vec<(NodeId, String)>>)
    ensures
        r is Some <==> forall|k: int| 0 <= k < children@.len() ==> is_node_name(#[trigger] children@[k].0@),
        r matches Some(l) ==> l@.len() == children@.len() && forall|k: int|
            0 <= k < l@.len() ==> (#[trigger] l@[k]).0 as nat == decimal_value(children@[k].0@)
                && l@[k].1@ == children@[k].1@,
{
    let mut out: Vec<(NodeId, String)> = Vec::new();
    let mut k: usize = 0;
    while k < children.len()
        invariant
            0 <= k <= children.len(),
            out@.len() == k,
            forall|j: int| 0 <= j < k ==> is_node_name(#[trigger] children@[j].0@),
            forall|j: int|
                0 <= j < k ==> (#[trigger] out@[j]).0 as nat == decimal_value(children@[j].0@)
                    && out@[j].1@ == children@[j].1@,
        decreases children.len() - k,
    {
        match parse_node_id(children[k].0.as_str()) {
            Some(id) => {
                out.push((id, children[k].1.clone()));
            },
            None => {
                return None;
            },
        }
        k = k + 1;
    }
    Some(out)
}

/// What a leader asks of the consensus engine after a listing.
#[derive(Clone, Debug)]
pub struct MembershipPlan {
    /// Nodes to add as non-voters, so that they catch up.
    pub add_non_voters: Vec<NodeId>,
    /// The voters to move to, if anything is to change.
    pub change_membership: Option<Vec<NodeId>>,
}

/// The distinct ids of a listing, in order of first appearance.
pub open spec fn distinct_ids(s: Seq<(NodeId, Seq<char>)>) -> Seq<NodeId>
    decreases s.len(),
{
    if s.len() == 0 {
        Seq::empty()
    } else {
        let before = distinct_ids(s.drop_last());
        if before.contains(s.last().0) {
            before
        } else {
            before.push(s.last().0)
        }
    }
}

/// Take a listing into the routing table and decide what to ask of the
/// consensus engine: nothing unless this node leads; as leader, to add the
/// newly listed nodes as non-voters and then to move to the listed nodes as
/// voters.
pub fn reconcile(
    network: &mut MyRaftNetwork,
    listing: &Vec<(NodeId, String)>,
    current_leader: Option<NodeId>,
) -> (r: MembershipPlan)
    requires
        old(network).wf(),
    ensures
        final(network).wf(),
        final(network)@.self_id == old(network)@.self_id,
        final(network)@.table == table_after(old(network)@.table, listing_view(listing@)),
        current_leader != Some(old(network)@.self_id) ==> r.add_non_voters@.len() == 0
            && r.change_membership is None,
        current_leader == Some(old(network)@.self_id) ==> {
            &&& r.add_non_voters@ == adds_of(
                old(network)@.table,
                listing_view(listing@),
                old(network)@.self_id,
            )
            &&& r.change_membership matches Some(m) && m@ == distinct_ids(listing_view(listing@))
        },
{
    let adds = network.update_rt(listing);
    let leads = match current_leader {
        Some(l) => l == network.self_id(),
        None => false,
    };
    if !leads {
        return MembershipPlan { add_non_voters: Vec::new(), change_membership: None };
    }
    let ghost all = listing_view(listing@);
    let mut members: Vec<NodeId> = Vec::new();
    let mut k: usize = 0;
    proof {
        assert(all.subrange(0, 0) =~= Seq::<(NodeId, Seq<char>)>::empty());
    }
    while k < listing.len()
        invariant
            0 <= k <= listing.len(),
            all == listing_view(listing@),
            members@ == distinct_ids(all.subrange(0, k as int)),
        decreases listing.len() - k,
    {
        let id = listing[k].0;
        let ghost pre = all.subrange(0, k as int);
        let ghost next = all.subrange(0, k + 1);
        proof {
            assert(next.drop_last() =~= pre);
        }
        let mut seen = false;
        let mut j: usize = 0;
        while j < members.len()
            invariant
                0 <= j <= members.len(),
                seen <==> members@.subrange(0, j as int).contains(id),
            decreases members.len() - j,
        {
            let ghost a = members@.subrange(0, j as int);
            let ghost b = members@.subrange(0, j + 1);
            proof {
                assert(b =~= a.push(members@[j as int]));
                if b.contains(id) {
                    let w = choose|w: int| 0 <= w < b.len() && b[w] == id;
                    if w < j {
                        assert(a[w] == id);
                    }
                }
                if a.contains(id) {
                    let w = choose|w: int| 0 <= w < a.len() && a[w] == id;
                    assert(b[w] == id);
                }
                if members@[j as int] == id {
                    assert(b[j as int] == id);
                }
            }
            if members[j] == id {
                seen = true;
            }
            j = j + 1;
        }
        proof {
            assert(members@.subrange(0, members@.len() as int) =~= members@);
        }
        if !seen {
            members.push(id);
        }
        k = k + 1;
    }
    proof {
        assert(all.subrange(0, all.len() as int) =~= all);
    }
    MembershipPlan { add_non_voters: adds, change_membership: Some(members) }
}

} // verus!
