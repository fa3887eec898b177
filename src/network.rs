//! The routing table of the transport: which address each peer is reached at.
use vstd::prelude::*;

use std::collections::HashMap;

use crate::types::NodeId;

verus! {

broadcast use vstd::std_specs::hash::group_hash_axioms;

/// A routing table seen through the text of its addresses.
pub open spec fn table_view(m: Map<NodeId, String>) -> Map<NodeId, Seq<char>> {
    m.map_values(|s: String| s@)
}

/// A discovery listing seen through the text of its addresses.
pub open spec fn listing_view(s: Seq<(NodeId, String)>) -> Seq<(NodeId, Seq<char>)> {
    s.map_values(|p: (NodeId, String)| (p.0, p.1@))
}

/// The table after taking each pair of `s` in turn, later pairs overriding
/// earlier ones.
pub open spec fn table_after(rt: Map<NodeId, Seq<char>>, s: Seq<(NodeId, Seq<char>)>) -> Map<
    NodeId,
    Seq<char>,
>
    decreases s.len(),
{
    if s.len() == 0 {
        rt
    } else {
        table_after(rt, s.drop_last()).insert(s.last().0, s.last().1)
    }
}

/// The ids, other than `self_id`, that taking `s` in turn adds to a table
/// that did not hold them, in the order they are added.
pub open spec fn adds_of(rt: Map<NodeId, Seq<char>>, s: Seq<(NodeId, Seq<char>)>, self_id: NodeId) -> Seq<
    NodeId,
>
    decreases s.len(),
{
    if s.len() == 0 {
        Seq::empty()
    } else {
        let before = adds_of(rt, s.drop_last(), self_id);
        if !table_after(rt, s.drop_last()).contains_key(s.last().0) && s.last().0 != self_id {
            before.push(s.last().0)
        } else {
            before
        }
    }
}

pub struct NetworkView {
    pub self_id: NodeId,
    pub table: Map<NodeId, Seq<char>>,
}

/// Why an outgoing call could not be made.
#[derive(Clone, Copy, Debug, PartialEq, Eq, Structural)]
pub enum NetworkError {
    /// The routing table has no address for the target.
    UnknownPeer { target: NodeId },
}

/// The routing side of the transport of one node.
pub struct MyRaftNetwork {
    routing_table: HashMap<NodeId, String>,
    self_id: NodeId,
}

impl View for MyRaftNetwork {
    type V = NetworkView;

    closed spec fn view(&self) -> NetworkView {
        NetworkView { self_id: self.self_id, table: table_view(self.routing_table@) }
    }
}

impl MyRaftNetwork {
    /// The table always knows where this node itself is.
    pub open spec fn wf(&self) -> bool {
        self@.table.contains_key(self@.self_id)
    }

    /// The transport of node `id`, which listens at `addr`.
    pub fn new(id: NodeId, addr: String) -> (r: MyRaftNetwork)
        ensures
            r.wf(),
            r@.self_id == id,
            r@.table == Map::<NodeId, Seq<char>>::empty().insert(id, addr@),
    {
        let mut routing_table: HashMap<NodeId, String> = HashMap::new();
        let ghost a = addr@;
        routing_table.insert(id, addr);
        let r = MyRaftNetwork { self_id: id, routing_table };
        assert(r@.table =~= Map::<NodeId, Seq<char>>::empty().insert(id, a));
        r
    }

    /// This node's id.
    pub fn self_id(&self) -> (r: NodeId)
        ensures
            r == self@.self_id,
    {
        self.self_id
    }

    /// Take a discovery listing into the table: each pair overrides the
    /// address held for its id. Nothing is removed. Returns the ids other
    /// than this node's that the table did not hold before, in listing order.
    pub fn update_rt(&mut self, new_rt: &Vec<(NodeId, String)>) -> (adds: Vec<NodeId>)
        requires
            old(self).wf(),
        ensures
            final(self).wf(),
            final(self)@.self_id == old(self)@.self_id,
            final(self)@.table == table_after(old(self)@.table, listing_view(new_rt@)),
            adds@ == adds_of(old(self)@.table, listing_view(new_rt@), old(self)@.self_id),
    {
        let ghost rt0 = self@.table;
        let ghost all = listing_view(new_rt@);
        let mut adds: Vec<NodeId> = Vec::new();
        let mut k: usize = 0;
        proof {
            assert(all.subrange(0, 0) =~= Seq::<(NodeId, Seq<char>)>::empty());
        }
        while k < new_rt.len()
            invariant
                0 <= k <= new_rt.len(),
                all == listing_view(new_rt@),
                self@.self_id == old(self)@.self_id,
                rt0 == old(self)@.table,
                self@.table == table_after(rt0, all.subrange(0, k as int)),
                adds@ == adds_of(rt0, all.subrange(0, k as int), self@.self_id),
                self.wf(),
            decreases new_rt.len() - k,
        {
            let new_id = new_rt[k].0;
            let new_addr = &new_rt[k].1;
            let ghost pre = all.subrange(0, k as int);
            let ghost next = all.subrange(0, k + 1);
            proof {
                assert(next.drop_last() =~= pre);
                assert(next.last() == (new_id, new_addr@));
            }
            let present = match self.routing_table.get(&new_id) {
                Some(old_addr) => {
                    if old_addr.eq(new_addr) {
                        proof {
                            assert(self@.table.insert(new_id, new_addr@) =~= self@.table);
                        }
                        k = k + 1;
                        continue;
                    }
                    true
                },
                None => false,
            };
            self.routing_table.insert(new_id, new_addr.clone());
            proof {
                assert(table_view(self.routing_table@) =~= table_after(rt0, next));
            }
            if !present && new_id != self.self_id {
                adds.push(new_id);
            }
            k = k + 1;
        }
        proof {
            assert(all.subrange(0, all.len() as int) =~= all);
        }
        adds
    }

    /// The address of `target`, or `UnknownPeer` when the table has none.
    pub fn peer_addr(&self, target: NodeId) -> (r: Result<String, NetworkError>)
        ensures
            self@.table.contains_key(target) <==> r is Ok,
            r matches Ok(a) ==> a@ == self@.table[target],
            r matches Err(e) ==> e == (NetworkError::UnknownPeer { target }),
    {
        match self.routing_table.get(&target) {
            Some(a) => Ok(a.clone()),
            None => Err(NetworkError::UnknownPeer { target }),
        }
    }
}

} // verus!
