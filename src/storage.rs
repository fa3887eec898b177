//! The storage facade that the consensus engine talks to: one node's log
//! store together with the state machine that committed entries are applied to.
use vstd::prelude::*;

use crate::log_store::{
    AppendError, LogStore, LogStoreView, contiguous_from, delete_of, has_index, last_id,
    last_index, put_of, range_of, views,
};
use crate::types::{
    Entry, EntryView, HardState, InitialState, Membership, MembershipView, NodeId, Payload,
    SnapshotMeta, SnapshotMetaView, entry_membership, initial_membership, pointer_entry,
};

verus! {

/// A failure reported by the application's state machine.
#[derive(Clone, Debug)]
pub struct AppError {
    pub reason: String,
}

/// The state machine that committed entries are applied to. Commands,
/// replies and queries are the bytes that the application encodes them to;
/// a state is known by the bytes of its snapshot, and what a command or a
/// query does is a function of that state and the command's bytes alone.
pub trait RaftApp: Sized {
    /// The current state, as the bytes of its snapshot.
    spec fn state(&self) -> Seq<u8>;

    /// Whether bytes are the snapshot of some state.
    spec fn is_snapshot(b: Seq<u8>) -> bool;

    /// The state and the reply after command `req` in state `s`; `None`
    /// where the command is refused.
    spec fn write_step(s: Seq<u8>, req: Seq<u8>) -> Option<(Seq<u8>, Seq<u8>)>;

    /// The answer to query `req` in state `s`; `None` where it is refused.
    spec fn read_step(s: Seq<u8>, req: Seq<u8>) -> Option<Seq<u8>>;

    /// Apply one committed command; a refused command changes nothing.
    fn handle_write(&mut self, req: &Vec<u8>) -> (r: Result<Vec<u8>, AppError>)
        ensures
            match Self::write_step(old(self).state(), req@) {
                Some((s, reply)) => (r matches Ok(b) && b@ == reply) && final(self).state() == s,
                None => r is Err && final(self).state() == old(self).state(),
            },
    ;

    /// Answer a query from the current state, without going through the log.
    fn handle_read(&self, req: &Vec<u8>) -> (r: Result<Vec<u8>, AppError>)
        ensures
            match Self::read_step(self.state(), req@) {
                Some(a) => r matches Ok(b) && b@ == a,
                None => r is Err,
            },
    ;

    /// A point-in-time serialization of the whole state.
    fn make_snapshot(&self) -> (r: Vec<u8>)
        ensures
            r@ == self.state(),
            Self::is_snapshot(r@),
    ;

    /// Replace the whole state with the one a snapshot holds; bytes that are
    /// no snapshot are refused and change nothing.
    fn handle_snapshot(&mut self, snap: &Vec<u8>) -> (r: Result<(), AppError>)
        ensures
            r is Ok <==> Self::is_snapshot(snap@),
            r is Ok ==> final(self).state() == snap@,
            r is Err ==> final(self).state() == old(self).state(),
    ;
}

/// Why a storage operation failed.
#[derive(Clone, Debug)]
pub enum StorageError {
    /// An entry that the operation needs is not in the log.
    InconsistentLog { index: u64 },
    /// An appended entry does not follow the tail of the log.
    IndexGap { last: u64, got: u64 },
    /// The state machine refused.
    App(AppError),
}

/// Errors after which the consensus engine shuts the node down.
#[derive(Clone, Copy, Debug, PartialEq, Eq, Structural)]
pub enum ShutdownError {
    /// The persisted state can no longer be trusted.
    UnsafeStorageError,
}

/// The membership carried by the last entry with index at most `bound` that
/// carries one.
pub open spec fn membership_as_of(log: Seq<EntryView>, bound: u64) -> Option<MembershipView>
    decreases log.len(),
{
    if log.len() == 0 {
        None
    } else if log.last().index <= bound && entry_membership(log.last()) is Some {
        entry_membership(log.last())
    } else {
        membership_as_of(log.drop_last(), bound)
    }
}

/// The membership in force at `bound`: the one the log records, else the
/// single-node cluster of `id`.
pub open spec fn membership_at(log: Seq<EntryView>, bound: u64, id: NodeId) -> MembershipView {
    match membership_as_of(log, bound) {
        Some(m) => m,
        None => initial_membership(id),
    }
}

/// The state after applying each command of `cmds` in turn; `None` where
/// the state machine refuses one.
pub open spec fn run_writes<T: RaftApp>(s: Seq<u8>, cmds: Seq<(u64, Vec<u8>)>) -> Option<Seq<u8>>
    decreases cmds.len(),
{
    if cmds.len() == 0 {
        Some(s)
    } else {
        match T::write_step(s, cmds[0].1@) {
            Some((next, _)) => run_writes::<T>(next, cmds.drop_first()),
            None => None,
        }
    }
}

/// Applying two batches whose commands are the same, in the same order,
/// leaves the same state: what a node's state machine holds depends on the
/// applied commands alone, not on their indices or on the node.
pub proof fn lemma_same_commands_same_state<T: RaftApp>(
    s: Seq<u8>,
    a: Seq<(u64, Vec<u8>)>,
    b: Seq<(u64, Vec<u8>)>,
)
    requires
        a.len() == b.len(),
        forall|k: int| 0 <= k < a.len() ==> (#[trigger] a[k]).1@ == b[k].1@,
    ensures
        run_writes::<T>(s, a) == run_writes::<T>(s, b),
    decreases a.len(),
{
    if a.len() > 0 {
        assert(a[0].1@ == b[0].1@);
        match T::write_step(s, a[0].1@) {
            Some((next, _)) => {
                assert forall|k: int| 0 <= k < a.drop_first().len() implies (#[trigger] a.drop_first()[k]).1@
                    == b.drop_first()[k].1@ by {
                    assert(a[k + 1].1@ == b[k + 1].1@);
                }
                lemma_same_commands_same_state::<T>(next, a.drop_first(), b.drop_first());
            },
            None => {},
        }
    }
}

/// The log after removing every entry with index at most `t`.
pub open spec fn through_of(log: Seq<EntryView>, t: u64) -> Seq<EntryView> {
    log.filter(|e: EntryView| e.index > t)
}

/// No entry at or below `s` is left but a snapshot pointer at `s` itself.
pub open spec fn compacted_at(log: Seq<EntryView>, s: u64) -> bool {
    forall|k: int|
        0 <= k < log.len() && (#[trigger] log[k]).index <= s ==> log[k].index == s
            && log[k].payload is SnapshotPointer
}

/// The last applied index names an entry of the log, or nothing is applied.
pub open spec fn applied_in_log(st: LogStoreView) -> bool {
    st.last_applied == 0 || has_index(st.log, st.last_applied)
}

pub struct StorageView {
    pub id: NodeId,
    pub store: LogStoreView,
    /// The state machine's state, as the bytes of its snapshot.
    pub sm: Seq<u8>,
}

/// One node's storage: its log store and its state machine.
pub struct MyRaftStorage<T: RaftApp> {
    id: NodeId,
    state: LogStore,
    sm: T,
}

impl<T: RaftApp> View for MyRaftStorage<T> {
    type V = StorageView;

    closed spec fn view(&self) -> StorageView {
        StorageView { id: self.id, store: self.state@, sm: self.sm.state() }
    }
}

impl<T: RaftApp> MyRaftStorage<T> {
    /// The log is ordered and the last applied index names one of its entries.
    pub closed spec fn wf(&self) -> bool {
        self.state.wf() && applied_in_log(self.state@)
    }

    /// Storage of node `id` on first boot.
    pub fn new(id: NodeId, sm: T) -> (r: Self)
        ensures
            r.wf(),
            r@.id == id,
            r@.sm == sm.state(),
            r@.store.log == Seq::<EntryView>::empty(),
            r@.store.last_applied == 0,
            r@.store.hard_state is None,
            r@.store.snapshot is None,
    {
        MyRaftStorage { id, state: LogStore::new(), sm }
    }

    /// Storage of node `id` over a store read back from disk; `None` where
    /// the store's last applied index names no entry of its log.
    pub fn from_store(id: NodeId, state: LogStore, sm: T) -> (r: Option<Self>)
        requires
            state.wf(),
        ensures
            r is Some <==> applied_in_log(state@),
            r matches Some(s) ==> s.wf() && s@ == (StorageView { id, store: state@, sm: sm.state() }),
    {
        let la = state.last_applied();
        if la != 0 {
            match state.get(la) {
                Some(_) => {},
                None => {
                    return None;
                },
            }
        }
        Some(MyRaftStorage { id, state, sm })
    }

    /// This node's id.
    pub fn id(&self) -> (r: NodeId)
        ensures
            r == self@.id,
    {
        self.id
    }

    /// The state machine.
    pub fn state_machine(&self) -> (r: &T) {
        &self.sm
    }

    /// The log store.
    pub fn store(&self) -> (r: &LogStore)
        ensures
            r@ == self@.store,
            self.wf() ==> r.wf(),
    {
        &self.state
    }

    /// Answer a query from the state machine, bypassing the log.
    pub fn handle_read(&self, req: &Vec<u8>) -> (r: Result<Vec<u8>, AppError>)
        ensures
            match T::read_step(self@.sm, req@) {
                Some(a) => r matches Ok(b) && b@ == a,
                None => r is Err,
            },
    {
        self.sm.handle_read(req)
    }

    fn membership_up_to(&self, bound: u64) -> (r: Membership)
        ensures
            r@ == membership_at(self@.store.log, bound, self@.id),
    {
        let n = self.state.len();
        let mut k: usize = n;
        assert(self@.store.log.subrange(0, n as int) =~= self@.store.log);
        while k > 0
            invariant
                0 <= k <= n,
                n == self@.store.log.len(),
                membership_as_of(self@.store.log, bound) == membership_as_of(
                    self@.store.log.subrange(0, k as int),
                    bound,
                ),
            decreases k,
        {
            let e = self.state.entry(k - 1);
            let ghost pre = self@.store.log.subrange(0, k as int);
            assert(pre.last() == e@);
            assert(pre.drop_last() =~= self@.store.log.subrange(0, k - 1));
            if e.index <= bound {
                match &e.payload {
                    Payload::ConfigChange(m) => {
                        return m.copy();
                    },
                    Payload::SnapshotPointer { membership, .. } => {
                        return membership.copy();
                    },
                    _ => {},
                }
            }
            k = k - 1;
        }
        assert(self@.store.log.subrange(0, 0) =~= Seq::<EntryView>::empty());
        Membership::new_initial(self.id)
    }

    /// The membership as of `last_applied_log`: the one carried by the last
    /// configuration change or snapshot pointer at or below it, else the
    /// single-node cluster of this node.
    pub fn get_last_applied_membership_config(&self, last_applied_log: u64) -> (r: Membership)
        ensures
            r@ == membership_at(self@.store.log, last_applied_log, self@.id),
    {
        self.membership_up_to(last_applied_log)
    }

    /// The membership carried by the last configuration change or snapshot
    /// pointer of the whole log, else the single-node cluster of this node.
    pub fn get_last_membership_config(&self) -> (r: Membership)
        ensures
            r@ == membership_at(self@.store.log, u64::MAX, self@.id),
    {
        self.membership_up_to(u64::MAX)
    }

    /// The cluster's current membership, as the log records it.
    pub fn get_membership_config(&self) -> (r: Membership)
        ensures
            r@ == membership_at(self@.store.log, u64::MAX, self@.id),
    {
        self.get_last_membership_config()
    }

    /// The state to resume from. On first boot (no hard state stored) the
    /// initial state is made and its hard state persisted.
    pub fn get_initial_state(&mut self) -> (r: InitialState)
        requires
            old(self).wf(),
        ensures
            final(self).wf(),
            final(self)@.id == old(self)@.id,
            final(self)@.sm == old(self)@.sm,
            old(self)@.store.hard_state is None ==> {
                &&& r.last_log_index == 0
                &&& r.last_log_term == 0
                &&& r.last_applied_log == 0
                &&& r.hard_state == (HardState { current_term: 0, voted_for: None })
                &&& r.membership@ == initial_membership(old(self)@.id)
                &&& final(self)@.store == (LogStoreView {
                    hard_state: Some(r.hard_state),
                    ..old(self)@.store
                })
            },
            old(self)@.store.hard_state matches Some(hs) ==> {
                &&& (r.last_log_index, r.last_log_term) == last_id(old(self)@.store.log)
                &&& r.last_applied_log == old(self)@.store.last_applied
                &&& r.hard_state == hs
                &&& r.membership@ == membership_at(old(self)@.store.log, u64::MAX, old(self)@.id)
                &&& final(self)@ == old(self)@
            },
    {
        match self.state.hard_state() {
            Some(hs) => {
                let membership = self.get_last_membership_config();
                let (last_log_index, last_log_term) = self.state.last();
                let last_applied_log = self.state.last_applied();
                InitialState { last_log_index, last_log_term, last_applied_log, hard_state: hs, membership }
            },
            None => {
                let new = InitialState::new_initial(self.id);
                self.state.set_hard_state(new.hard_state);
                new
            },
        }
    }

    /// Persist the hard state.
    pub fn save_hard_state(&mut self, hs: &HardState)
        requires
            old(self).wf(),
        ensures
            final(self).wf(),
            final(self)@ == (StorageView {
                store: LogStoreView { hard_state: Some(*hs), ..old(self)@.store },
                ..old(self)@
            }),
    {
        self.state.set_hard_state(*hs);
    }

    /// The entries with index in `[start, stop)`; empty when `start > stop`.
    pub fn get_log_entries(&self, start: u64, stop: u64) -> (r: Vec<Entry>)
        ensures
            views(r@) == range_of(self@.store.log, start, stop),
    {
        if start > stop {
            proof {
                lemma_empty_range(self@.store.log, start, stop);
            }
            return Vec::new();
        }
        self.state.range(start, stop)
    }

    /// Remove the entries with index in `[start, stop)`, or from `start` on.
    /// Applied entries are never removed.
    pub fn delete_logs_from(&mut self, start: u64, stop: Option<u64>)
        requires
            old(self).wf(),
            old(self)@.store.last_applied == 0 || start > old(self)@.store.last_applied,
        ensures
            final(self).wf(),
            final(self)@ == (StorageView {
                store: LogStoreView {
                    log: delete_of(old(self)@.store.log, start, stop),
                    ..old(self)@.store
                },
                ..old(self)@
            }),
    {
        let ghost pre = self.state@;
        self.state.delete_from(start, stop);
        proof {
            lemma_kept_applied(pre, start, stop);
        }
    }

    /// Append one entry after the tail of the log.
    pub fn append_entry_to_log(&mut self, entry: &Entry) -> (r: Result<(), StorageError>)
        requires
            old(self).wf(),
        ensures
            final(self).wf(),
            r is Ok <==> entry.index as int == last_index(old(self)@.store.log) + 1,
            r is Ok ==> final(self)@ == (StorageView {
                store: LogStoreView { log: old(self)@.store.log.push(entry@), ..old(self)@.store },
                ..old(self)@
            }),
            r is Err ==> final(self)@ == old(self)@,
    {
        let ghost pre = self.state@;
        match self.state.append(entry.copy()) {
            Ok(()) => {
                proof {
                    lemma_applied_extends(pre.log, pre.log.push(entry@), pre.last_applied);
                }
                Ok(())
            },
            Err(AppendError::IndexGap { last, got }) => Err(StorageError::IndexGap { last, got }),
        }
    }

    /// Append a run of entries after the tail of the log. Where one does not
    /// follow, those before it stay appended.
    pub fn replicate_to_log(&mut self, entries: &Vec<Entry>) -> (r: Result<(), StorageError>)
        requires
            old(self).wf(),
        ensures
            final(self).wf(),
            final(self)@.id == old(self)@.id,
            r is Ok <==> contiguous_from(views(entries@), last_index(old(self)@.store.log)),
            r is Ok ==> final(self)@.store == (LogStoreView {
                log: old(self)@.store.log + views(entries@),
                ..old(self)@.store
            }),
            final(self)@.store.last_applied == old(self)@.store.last_applied,
            final(self)@.store.hard_state == old(self)@.store.hard_state,
            final(self)@.store.snapshot == old(self)@.store.snapshot,
            final(self)@.sm == old(self)@.sm,
    {
        let mut batch: Vec<Entry> = Vec::new();
        let mut k: usize = 0;
        while k < entries.len()
            invariant
                0 <= k <= entries.len(),
                views(batch@) == views(entries@.subrange(0, k as int)),
            decreases entries.len() - k,
        {
            let ghost pre = batch@;
            let c = entries[k].copy();
            batch.push(c);
            proof {
                crate::log_store::lemma_views_push(entries@, k as int);
                assert(views(batch@) =~= views(pre).push(c@));
            }
            k = k + 1;
        }
        proof {
            assert(entries@.subrange(0, entries.len() as int) =~= entries@);
        }
        let ghost pre = self.state@;
        let ghost all = views(batch@);
        let res = self.state.append_batch(batch);
        proof {
            let n = choose|n: int|
                0 <= n <= all.len() && self.state@.log == pre.log + all.subrange(0, n);
            lemma_applied_extends(pre.log, self.state@.log, pre.last_applied);
        }
        match res {
            Ok(()) => Ok(()),
            Err(AppendError::IndexGap { last, got }) => Err(StorageError::IndexGap { last, got }),
        }
    }

    /// Apply the command of entry `index` to the state machine and record
    /// `index` as applied, in one step. Refused, with nothing changed, when the
    /// log holds no entry `index` or the state machine refuses the command.
    pub fn apply_entry_to_state_machine(&mut self, index: u64, data: &Vec<u8>) -> (r: Result<
        Vec<u8>,
        StorageError,
    >)
        requires
            old(self).wf(),
        ensures
            final(self).wf(),
            !has_index(old(self)@.store.log, index) ==> (r matches Err(
                StorageError::InconsistentLog { index: i },
            ) && i == index),
            has_index(old(self)@.store.log, index) ==> match T::write_step(old(self)@.sm, data@) {
                Some((sm, reply)) => (r matches Ok(b) && b@ == reply) && final(self)@ == (
                StorageView {
                    store: LogStoreView { last_applied: index, ..old(self)@.store },
                    sm,
                    ..old(self)@
                }),
                None => r matches Err(StorageError::App(_)),
            },
            r is Err ==> final(self)@ == old(self)@,
    {
        if !self.contains_index(index) {
            return Err(StorageError::InconsistentLog { index });
        }
        match self.sm.handle_write(data) {
            Ok(rsp) => {
                self.state.set_last_applied(index);
                Ok(rsp)
            },
            Err(e) => Err(StorageError::App(e)),
        }
    }

    fn contains_index(&self, index: u64) -> (r: bool)
        requires
            self.wf(),
        ensures
            r == has_index(self@.store.log, index),
    {
        match self.state.get(index) {
            Some(_) => true,
            None => false,
        }
    }

    /// Apply a batch of committed commands in order. The last applied index
    /// becomes the batch's last index once every command has been applied.
    /// When an index is not in the log nothing is applied; when the state
    /// machine refuses a command, those before it stay applied, the last
    /// applied index stays where it was, and the node must not go on.
    pub fn replicate_to_state_machine(&mut self, entries: &Vec<(u64, Vec<u8>)>) -> (r: Result<
        (),
        StorageError,
    >)
        requires
            old(self).wf(),
        ensures
            final(self).wf(),
            final(self)@.id == old(self)@.id,
            entries@.len() == 0 ==> r is Ok && final(self)@ == old(self)@,
            (exists|k: int|
                0 <= k < entries@.len() && !has_index(old(self)@.store.log, #[trigger] entries@[k].0))
                ==> (r matches Err(StorageError::InconsistentLog { .. }) && final(self)@ == old(self)@),
            (forall|k: int|
                0 <= k < entries@.len() ==> has_index(old(self)@.store.log, #[trigger] entries@[k].0))
                ==> match run_writes::<T>(old(self)@.sm, entries@) {
                Some(sm) => r is Ok && final(self)@ == (StorageView {
                    store: LogStoreView {
                        last_applied: if entries@.len() == 0 {
                            old(self)@.store.last_applied
                        } else {
                            entries@.last().0
                        },
                        ..old(self)@.store
                    },
                    sm,
                    ..old(self)@
                }),
                None => r matches Err(StorageError::App(_)) && final(self)@.store == old(self)@.store,
            },
    {
        let mut k: usize = 0;
        while k < entries.len()
            invariant
                self.wf(),
                0 <= k <= entries.len(),
                forall|j: int| 0 <= j < k ==> has_index(self@.store.log, (#[trigger] entries@[j]).0),
            decreases entries.len() - k,
        {
            if !self.contains_index(entries[k].0) {
                return Err(StorageError::InconsistentLog { index: entries[k].0 });
            }
            k = k + 1;
        }
        let n = entries.len();
        let mut k: usize = 0;
        proof {
            assert(entries@.subrange(0, n as int) =~= entries@);
        }
        while k < n
            invariant
                self.wf(),
                n == entries@.len(),
                self@.store == old(self)@.store,
                self@.id == old(self)@.id,
                0 <= k <= n,
                forall|j: int| 0 <= j < entries@.len() ==> has_index(self@.store.log, (#[trigger] entries@[j]).0),
                run_writes::<T>(old(self)@.sm, entries@) == run_writes::<T>(
                    self@.sm,
                    entries@.subrange(k as int, n as int),
                ),
            decreases n - k,
        {
            let ghost rest = entries@.subrange(k as int, n as int);
            proof {
                assert(rest[0] == entries@[k as int]);
                assert(rest.drop_first() =~= entries@.subrange(k + 1, n as int));
            }
            match self.sm.handle_write(&entries[k].1) {
                Ok(_) => {},
                Err(e) => {
                    return Err(StorageError::App(e));
                },
            }
            k = k + 1;
        }
        proof {
            assert(entries@.subrange(n as int, n as int) =~= Seq::<(u64, Vec<u8>)>::empty());
        }
        if entries.len() > 0 {
            let last = entries[entries.len() - 1].0;
            assert(has_index(self@.store.log, entries@[entries@.len() - 1].0));
            self.state.set_last_applied(last);
        }
        Ok(())
    }

    /// Remove the entries with index at most `t` and put `pointer` in their place.
    fn compact_through(&mut self, t: u64, pointer: Entry)
        requires
            old(self).state.wf(),
        ensures
            final(self).state.wf(),
            final(self).id == old(self).id,
            final(self).sm == old(self).sm,
            final(self).state@ == (LogStoreView {
                log: put_of(through_of(old(self)@.store.log, t), pointer@),
                ..old(self).state@
            }),
    {
        let ghost pre = self.state@.log;
        if t == u64::MAX {
            self.state.clear_log();
            proof {
                lemma_through_max(pre);
            }
        } else {
            self.state.delete_from(0, Some(t + 1));
            proof {
                lemma_through_bounded(pre, t);
            }
        }
        self.state.put(pointer);
    }

    /// Capture a snapshot at the last applied index `L`: the state machine's
    /// bytes, the term of entry `L` and the membership as of `L`. The snapshot
    /// is recorded as current and the entries up to `L` give way to one
    /// snapshot pointer at `L`. Refused, with nothing changed, exactly when
    /// entry `L` is not in the log.
    pub fn do_log_compaction(&mut self) -> (r: Result<SnapshotMeta, StorageError>)
        requires
            old(self).wf(),
        ensures
            final(self).wf(),
            has_index(old(self)@.store.log, old(self)@.store.last_applied) <==> r is Ok,
            r matches Err(e) ==> e == (StorageError::InconsistentLog {
                index: old(self)@.store.last_applied,
            }) && final(self)@ == old(self)@,
            r matches Ok(snap) ==> {
                let l = old(self)@.store.last_applied;
                let m = membership_at(old(self)@.store.log, l, old(self)@.id);
                &&& snap@.index == l
                &&& exists|k: int|
                    0 <= k < old(self)@.store.log.len() && (#[trigger] old(self)@.store.log[k]).index
                        == l && old(self)@.store.log[k].term == snap@.term
                &&& snap@.membership == m
                &&& snap@.data == old(self)@.sm
                &&& final(self)@ == (StorageView {
                    store: LogStoreView {
                        log: put_of(
                            through_of(old(self)@.store.log, l),
                            pointer_entry(l, snap@.term, Seq::<char>::empty(), m),
                        ),
                        snapshot: Some(snap@),
                        ..old(self)@.store
                    },
                    ..old(self)@
                })
                &&& compacted_at(final(self)@.store.log, l)
            },
    {
        let data = self.sm.make_snapshot();
        self.compact_with(data)
    }

    /// Record `data`, the state machine's bytes at the last applied index
    /// `L`, as the current snapshot, with the term of entry `L` and the
    /// membership as of `L`, and let the entries up to `L` give way to one
    /// snapshot pointer at `L`. Refused, with nothing changed, exactly when
    /// entry `L` is not in the log.
    pub fn compact_with(&mut self, data: Vec<u8>) -> (r: Result<SnapshotMeta, StorageError>)
        requires
            old(self).wf(),
        ensures
            final(self).wf(),
            has_index(old(self)@.store.log, old(self)@.store.last_applied) <==> r is Ok,
            r matches Err(e) ==> e == (StorageError::InconsistentLog {
                index: old(self)@.store.last_applied,
            }) && final(self)@ == old(self)@,
            r matches Ok(snap) ==> {
                let l = old(self)@.store.last_applied;
                let m = membership_at(old(self)@.store.log, l, old(self)@.id);
                &&& snap@.index == l
                &&& exists|k: int|
                    0 <= k < old(self)@.store.log.len() && (#[trigger] old(self)@.store.log[k]).index
                        == l && old(self)@.store.log[k].term == snap@.term
                &&& snap@.membership == m
                &&& snap@.data == data@
                &&& final(self)@ == (StorageView {
                    store: LogStoreView {
                        log: put_of(
                            through_of(old(self)@.store.log, l),
                            pointer_entry(l, snap@.term, Seq::<char>::empty(), m),
                        ),
                        snapshot: Some(snap@),
                        ..old(self)@.store
                    },
                    ..old(self)@
                })
                &&& compacted_at(final(self)@.store.log, l)
            },
    {
        let last_applied_log = self.state.last_applied();
        let term = match self.state.get(last_applied_log) {
            Some(e) => e.term,
            None => {
                return Err(StorageError::InconsistentLog { index: last_applied_log });
            },
        };
        let membership = self.get_last_applied_membership_config(last_applied_log);
        let snapshot = SnapshotMeta { index: last_applied_log, term, membership: membership.copy(), data };
        let pointer = Entry::new_snapshot_pointer(last_applied_log, term, String::new(), membership);
        let ghost pre = self.state@;
        self.compact_through(last_applied_log, pointer);
        self.state.set_snapshot_meta(snapshot.copy());
        proof {
            lemma_compacted(pre.log, last_applied_log, pointer@);
            lemma_put_has(through_of(pre.log, last_applied_log), pointer@);
        }
        Ok(snapshot)
    }

    /// A fresh, empty snapshot for the consensus engine to stream into.
    pub fn create_snapshot(&self) -> (r: (String, Vec<u8>))
        ensures
            r.0@ == Seq::<char>::empty(),
            r.1@ == Seq::<u8>::empty(),
    {
        (String::new(), Vec::new())
    }

    /// Install a snapshot received from the leader: the state machine is
    /// restored from its bytes; the entries up to `delete_through` (all of
    /// them when `None`) are removed and a pointer at `index` put in, carrying
    /// the membership as of `index`; the snapshot becomes current and `index`
    /// the last applied. When the state machine refuses the bytes nothing
    /// else changes.
    pub fn finalize_snapshot_installation(
        &mut self,
        index: u64,
        term: u64,
        delete_through: Option<u64>,
        id: String,
        snapshot: SnapshotMeta,
    ) -> (r: Result<(), StorageError>)
        requires
            old(self).wf(),
        ensures
            final(self).wf(),
            final(self)@.id == old(self)@.id,
            r is Ok <==> T::is_snapshot(snapshot@.data),
            r is Ok ==> final(self)@.sm == snapshot@.data,
            r is Err ==> final(self)@ == old(self)@ && r->Err_0 is App,
            r is Ok ==> {
                let m = membership_at(old(self)@.store.log, index, old(self)@.id);
                let kept = match delete_through {
                    Some(t) => through_of(old(self)@.store.log, t),
                    None => Seq::<EntryView>::empty(),
                };
                final(self)@.store == (LogStoreView {
                    log: put_of(kept, pointer_entry(index, term, id@, m)),
                    last_applied: index,
                    snapshot: Some(
                        SnapshotMetaView {
                            index,
                            term,
                            membership: snapshot@.membership,
                            data: snapshot@.data,
                        },
                    ),
                    ..old(self)@.store
                })
            },
            r is Ok && (delete_through is None || delete_through->Some_0 >= index) ==> compacted_at(
                final(self)@.store.log,
                index,
            ),
            r is Ok && delete_through is None ==> final(self)@.store.log == seq![
                pointer_entry(index, term, id@, membership_at(old(self)@.store.log, index, old(self)@.id)),
            ],
    {
        match self.sm.handle_snapshot(&snapshot.data) {
            Ok(()) => {},
            Err(e) => {
                return Err(StorageError::App(e));
            },
        }
        let membership = self.get_last_applied_membership_config(index);
        let pointer = Entry::new_snapshot_pointer(index, term, id, membership);
        let ghost pre = self.state@;
        match delete_through {
            Some(t) => {
                self.compact_through(t, pointer);
                proof {
                    if t >= index {
                        lemma_compacted(pre.log, t, pointer@);
                    }
                }
            },
            None => {
                self.state.clear_log();
                self.state.put(pointer);
                proof {
                    lemma_put_empty(pointer@);
                }
            },
        }
        proof {
            lemma_put_has(
                match delete_through {
                    Some(t) => through_of(pre.log, t),
                    None => Seq::<EntryView>::empty(),
                },
                pointer@,
            );
        }
        self.state.set_snapshot_meta(
            SnapshotMeta { index, term, membership: snapshot.membership, data: snapshot.data },
        );
        self.state.set_last_applied(index);
        Ok(())
    }

    /// The current snapshot, if one was taken or installed.
    pub fn get_current_snapshot(&self) -> (r: Option<SnapshotMeta>)
        ensures
            r is None <==> self@.store.snapshot is None,
            r matches Some(m) ==> self@.store.snapshot == Some(m@),
    {
        self.state.snapshot_meta()
    }
}

/// The last applied index never passes the last index of the log.
pub proof fn lemma_applied_within_log<T: RaftApp>(s: &MyRaftStorage<T>)
    requires
        s.wf(),
    ensures
        s@.store.last_applied <= last_index(s@.store.log),
{
    let log = s@.store.log;
    let la = s@.store.last_applied;
    if la != 0 {
        let k = choose|k: int| 0 <= k < log.len() && #[trigger] log[k].index == la;
        if k < log.len() - 1 {
            assert(log[k].index < log[log.len() - 1].index);
        }
    }
}

/// Deleting from an empty log, up to its end, leaves it empty.
pub proof fn lemma_delete_empty_log(start: u64)
    ensures
        delete_of(Seq::<EntryView>::empty(), start, None) == Seq::<EntryView>::empty(),
{
    reveal(Seq::filter);
}

/// Asking for the entries of `[start, stop)` with `start > stop` gives none,
/// whatever the log.
pub proof fn lemma_empty_range(log: Seq<EntryView>, start: u64, stop: u64)
    requires
        start > stop,
    ensures
        range_of(log, start, stop) == Seq::<EntryView>::empty(),
    decreases log.len(),
{
    reveal(Seq::filter);
    if log.len() > 0 {
        lemma_empty_range(log.drop_last(), start, stop);
    }
}

proof fn lemma_filter_keeps<A>(s: Seq<A>, pred: spec_fn(A) -> bool, k: int)
    requires
        0 <= k < s.len(),
        pred(s[k]),
    ensures
        s.filter(pred).contains(s[k]),
{
    broadcast use vstd::seq_lib::group_filter_ensures;

}

proof fn lemma_kept_applied(pre: LogStoreView, start: u64, stop: Option<u64>)
    requires
        applied_in_log(pre),
        pre.last_applied == 0 || start > pre.last_applied,
    ensures
        applied_in_log(LogStoreView { log: delete_of(pre.log, start, stop), ..pre }),
{
    if pre.last_applied != 0 {
        let k = choose|k: int| 0 <= k < pre.log.len() && #[trigger] pre.log[k].index == pre.last_applied;
        let pred = |e: EntryView| !crate::log_store::deleted(e.index, start, stop);
        lemma_filter_keeps(pre.log, pred, k);
        let f = pre.log.filter(pred);
        let j = choose|j: int| 0 <= j < f.len() && f[j] == pre.log[k];
        assert(f[j].index == pre.last_applied);
    }
}

proof fn lemma_applied_extends(log: Seq<EntryView>, longer: Seq<EntryView>, applied: u64)
    requires
        log.len() <= longer.len(),
        forall|k: int| 0 <= k < log.len() ==> longer[k] == log[k],
        applied == 0 || has_index(log, applied),
    ensures
        applied == 0 || has_index(longer, applied),
{
    if applied != 0 {
        let k = choose|k: int| 0 <= k < log.len() && #[trigger] log[k].index == applied;
        assert(longer[k].index == applied);
    }
}

proof fn lemma_through_max(log: Seq<EntryView>)
    ensures
        through_of(log, u64::MAX) == Seq::<EntryView>::empty(),
    decreases log.len(),
{
    reveal(Seq::filter);
    if log.len() > 0 {
        lemma_through_max(log.drop_last());
    }
}

proof fn lemma_through_bounded(log: Seq<EntryView>, t: u64)
    requires
        t < u64::MAX,
    ensures
        delete_of(log, 0, Some((t + 1) as u64)) == through_of(log, t),
    decreases log.len(),
{
    reveal(Seq::filter);
    if log.len() > 0 {
        lemma_through_bounded(log.drop_last(), t);
    }
}

/// Putting a pointer at `p` into a log from which every entry at or below
/// `t >= p` was removed leaves the pointer as the only entry at or below `p`.
proof fn lemma_compacted(log: Seq<EntryView>, t: u64, p: EntryView)
    requires
        t >= p.index,
        p.payload is SnapshotPointer,
    ensures
        compacted_at(put_of(through_of(log, t), p), p.index),
{
    let th = through_of(log, t);
    let lt = |x: EntryView| x.index < p.index;
    let gt = |x: EntryView| x.index > p.index;
    broadcast use vstd::seq_lib::group_filter_ensures;

    let a = th.filter(lt);
    if a.len() > 0 {
        lemma_filter_contained(th, lt);
        assert(th.contains(a[0]));
        let j = choose|j: int| 0 <= j < th.len() && th[j] == a[0];
        assert(th[j].index > t);
    }
    let r = put_of(th, p);
    let b = th.filter(gt);
    assert(r =~= a.push(p) + b);
    assert forall|k: int| 0 <= k < r.len() && (#[trigger] r[k]).index <= p.index implies r[k].index
        == p.index && r[k].payload is SnapshotPointer by {
        if k > a.len() {
            assert(r[k] == b[k - a.len() - 1]);
            assert(gt(b[k - a.len() - 1]));
        }
    }
}

proof fn lemma_filter_contained<A>(s: Seq<A>, pred: spec_fn(A) -> bool)
    ensures
        forall|i: int| 0 <= i < s.filter(pred).len() ==> s.contains(#[trigger] s.filter(pred)[i]),
    decreases s.len(),
{
    reveal(Seq::filter);
    if s.len() > 0 {
        let d = s.drop_last();
        lemma_filter_contained(d, pred);
        assert forall|i: int| 0 <= i < s.filter(pred).len() implies s.contains(
            #[trigger] s.filter(pred)[i],
        ) by {
            if i < d.filter(pred).len() {
                let j = choose|j: int| 0 <= j < d.len() && d[j] == d.filter(pred)[i];
                assert(s[j] == d[j]);
            } else {
                assert(s[s.len() - 1] == s.filter(pred)[i]);
            }
        }
    }
}

proof fn lemma_put_empty(p: EntryView)
    ensures
        put_of(Seq::<EntryView>::empty(), p) == seq![p],
{
    reveal(Seq::filter);
    assert(put_of(Seq::<EntryView>::empty(), p) =~= seq![p]);
}

proof fn lemma_put_has(log: Seq<EntryView>, p: EntryView)
    ensures
        has_index(put_of(log, p), p.index),
{
    let r = put_of(log, p);
    let a = log.filter(|x: EntryView| x.index < p.index);
    assert(r[a.len() as int] == p);
}

} // verus!
