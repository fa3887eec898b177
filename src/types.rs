//! The values that the log store and the storage facade hold: log entries,
//! membership configurations, hard state and snapshot metadata.
use vstd::prelude::*;

verus! {

/// Identifier of a node of the cluster.
pub type NodeId = u64;

/// The voters of the cluster at a point of the log, and during a joint
/// consensus the voters of the configuration being moved to.
#[derive(Clone, Debug)]
pub struct Membership {
    pub members: Vec<NodeId>,
    pub members_after_consensus: Option<Vec<NodeId>>,
}

pub struct MembershipView {
    pub members: Seq<NodeId>,
    pub members_after_consensus: Option<Seq<NodeId>>,
}

impl View for Membership {
    type V = MembershipView;

    open spec fn view(&self) -> MembershipView {
        MembershipView {
            members: self.members@,
            members_after_consensus: match self.members_after_consensus {
                Some(v) => Some(v@),
                None => None,
            },
        }
    }
}

/// The configuration of a cluster that has only just been created by `id`.
pub open spec fn initial_membership(id: NodeId) -> MembershipView {
    MembershipView { members: seq![id], members_after_consensus: None }
}

/// A copy of a list of node ids.
pub fn copy_ids(v: &Vec<NodeId>) -> (r: Vec<NodeId>)
    ensures
        r@ == v@,
{
    let mut r: Vec<NodeId> = Vec::new();
    let mut i: usize = 0;
    while i < v.len()
        invariant
            0 <= i <= v.len(),
            r@ == v@.subrange(0, i as int),
        decreases v.len() - i,
    {
        r.push(v[i]);
        i = i + 1;
        assert(r@ =~= v@.subrange(0, i as int));
    }
    assert(v@.subrange(0, v.len() as int) =~= v@);
    r
}

/// A copy of a byte string.
pub fn copy_bytes(v: &Vec<u8>) -> (r: Vec<u8>)
    ensures
        r@ == v@,
{
    let mut r: Vec<u8> = Vec::new();
    let mut i: usize = 0;
    while i < v.len()
        invariant
            0 <= i <= v.len(),
            r@ == v@.subrange(0, i as int),
        decreases v.len() - i,
    {
        r.push(v[i]);
        i = i + 1;
        assert(r@ =~= v@.subrange(0, i as int));
    }
    assert(v@.subrange(0, v.len() as int) =~= v@);
    r
}

impl Membership {
    /// The configuration of a new single-node cluster.
    pub fn new_initial(id: NodeId) -> (r: Membership)
        ensures
            r@ == initial_membership(id),
    {
        let mut members: Vec<NodeId> = Vec::new();
        members.push(id);
        let r = Membership { members, members_after_consensus: None };
        assert(r@.members =~= seq![id]);
        r
    }

    /// A copy with the same view.
    pub fn copy(&self) -> (r: Membership)
        ensures
            r@ == self@,
    {
        let after = match &self.members_after_consensus {
            Some(v) => Some(copy_ids(v)),
            None => None,
        };
        Membership { members: copy_ids(&self.members), members_after_consensus: after }
    }
}

/// What a log entry carries.
#[derive(Clone, Debug)]
pub enum Payload {
    /// A no-op that the consensus engine appends for itself.
    Blank,
    /// An application write command, opaque to the log.
    Normal(Vec<u8>),
    /// A change of the cluster's membership.
    ConfigChange(Membership),
    /// The place where the log was compacted into a snapshot.
    SnapshotPointer { id: String, membership: Membership },
}

pub enum PayloadView {
    Blank,
    Normal(Seq<u8>),
    ConfigChange(MembershipView),
    SnapshotPointer { id: Seq<char>, membership: MembershipView },
}

impl View for Payload {
    type V = PayloadView;

    open spec fn view(&self) -> PayloadView {
        match self {
            Payload::Blank => PayloadView::Blank,
            Payload::Normal(d) => PayloadView::Normal(d@),
            Payload::ConfigChange(m) => PayloadView::ConfigChange(m@),
            Payload::SnapshotPointer { id, membership } => PayloadView::SnapshotPointer {
                id: id@,
                membership: membership@,
            },
        }
    }
}

impl Payload {
    /// A copy with the same view.
    pub fn copy(&self) -> (r: Payload)
        ensures
            r@ == self@,
    {
        match self {
            Payload::Blank => Payload::Blank,
            Payload::Normal(d) => Payload::Normal(copy_bytes(d)),
            Payload::ConfigChange(m) => Payload::ConfigChange(m.copy()),
            Payload::SnapshotPointer { id, membership } => Payload::SnapshotPointer {
                id: id.clone(),
                membership: membership.copy(),
            },
        }
    }
}

/// One record of the replicated log.
#[derive(Clone, Debug)]
pub struct Entry {
    pub index: u64,
    pub term: u64,
    pub payload: Payload,
}

pub struct EntryView {
    pub index: u64,
    pub term: u64,
    pub payload: PayloadView,
}

impl View for Entry {
    type V = EntryView;

    open spec fn view(&self) -> EntryView {
        EntryView { index: self.index, term: self.term, payload: self.payload@ }
    }
}

impl Entry {
    /// A copy with the same view.
    pub fn copy(&self) -> (r: Entry)
        ensures
            r@ == self@,
    {
        Entry { index: self.index, term: self.term, payload: self.payload.copy() }
    }

    /// The entry that marks where the log was compacted into snapshot `id`.
    pub fn new_snapshot_pointer(index: u64, term: u64, id: String, membership: Membership) -> (r:
        Entry)
        ensures
            r@ == pointer_entry(index, term, id@, membership@),
    {
        Entry { index, term, payload: Payload::SnapshotPointer { id, membership } }
    }
}

pub open spec fn pointer_entry(
    index: u64,
    term: u64,
    id: Seq<char>,
    membership: MembershipView,
) -> EntryView {
    EntryView { index, term, payload: PayloadView::SnapshotPointer { id, membership } }
}

/// The membership that an entry carries, if it carries one.
pub open spec fn entry_membership(e: EntryView) -> Option<MembershipView> {
    match e.payload {
        PayloadView::ConfigChange(m) => Some(m),
        PayloadView::SnapshotPointer { membership, .. } => Some(membership),
        _ => None,
    }
}

/// The term this node is in and whom it voted for in it.
#[derive(Clone, Copy, Debug, PartialEq, Eq, Structural)]
pub struct HardState {
    pub current_term: u64,
    pub voted_for: Option<NodeId>,
}

/// The persisted description of the current snapshot, with its bytes.
#[derive(Clone, Debug)]
pub struct SnapshotMeta {
    pub index: u64,
    pub term: u64,
    pub membership: Membership,
    pub data: Vec<u8>,
}

pub struct SnapshotMetaView {
    pub index: u64,
    pub term: u64,
    pub membership: MembershipView,
    pub data: Seq<u8>,
}

impl View for SnapshotMeta {
    type V = SnapshotMetaView;

    open spec fn view(&self) -> SnapshotMetaView {
        SnapshotMetaView {
            index: self.index,
            term: self.term,
            membership: self.membership@,
            data: self.data@,
        }
    }
}

impl SnapshotMeta {
    /// A copy with the same view.
    pub fn copy(&self) -> (r: SnapshotMeta)
        ensures
            r@ == self@,
    {
        SnapshotMeta {
            index: self.index,
            term: self.term,
            membership: self.membership.copy(),
            data: copy_bytes(&self.data),
        }
    }
}

/// What the consensus engine needs to resume after a start.
#[derive(Clone, Debug)]
pub struct InitialState {
    pub last_log_index: u64,
    pub last_log_term: u64,
    pub last_applied_log: u64,
    pub hard_state: HardState,
    pub membership: Membership,
}

impl InitialState {
    /// The state of a node that has never run: empty log, term zero, no vote,
    /// and a cluster of itself alone.
    pub fn new_initial(id: NodeId) -> (r: InitialState)
        ensures
            r.last_log_index == 0,
            r.last_log_term == 0,
            r.last_applied_log == 0,
            r.hard_state == (HardState { current_term: 0, voted_for: None }),
            r.membership@ == initial_membership(id),
    {
        InitialState {
            last_log_index: 0,
            last_log_term: 0,
            last_applied_log: 0,
            hard_state: HardState { current_term: 0, voted_for: None },
            membership: Membership::new_initial(id),
        }
    }
}

} // verus!
