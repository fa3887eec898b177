//! The log store: the ordered log of one node and its meta keyspace
//! (last applied index, hard state, current snapshot).
use vstd::prelude::*;

use crate::iter::{Iter, Iterator};
use crate::types::{Entry, EntryView, HardState, SnapshotMeta, SnapshotMetaView};

verus! {

/// The views of a sequence of entries.
pub open spec fn views(s: Seq<Entry>) -> Seq<EntryView> {
    s.map_values(|e: Entry| e@)
}

/// Indices strictly increase along the log.
pub open spec fn sorted(log: Seq<EntryView>) -> bool {
    forall|i: int, j: int| 0 <= i < j < log.len() ==> #[trigger] log[i].index < #[trigger] log[j].index
}

/// Index and term of the last entry, or `(0, 0)` for an empty log.
pub open spec fn last_id(log: Seq<EntryView>) -> (u64, u64) {
    if log.len() == 0 {
        (0, 0)
    } else {
        (log.last().index, log.last().term)
    }
}

/// Index of the last entry, or 0 for an empty log.
pub open spec fn last_index(log: Seq<EntryView>) -> u64 {
    last_id(log).0
}

pub open spec fn in_range(e: EntryView, lo: u64, hi: u64) -> bool {
    lo <= e.index && e.index < hi
}

/// The entries whose index lies in `[lo, hi)`, in log order.
pub open spec fn range_of(log: Seq<EntryView>, lo: u64, hi: u64) -> Seq<EntryView> {
    log.filter(|e: EntryView| in_range(e, lo, hi))
}

/// Whether `delete_from(start, stop)` removes an entry with index `i`.
pub open spec fn deleted(i: u64, start: u64, stop: Option<u64>) -> bool {
    start <= i && match stop {
        Some(s) => i < s,
        None => true,
    }
}

/// The log after removing the entries with index in `[start, stop)`.
pub open spec fn delete_of(log: Seq<EntryView>, start: u64, stop: Option<u64>) -> Seq<EntryView> {
    log.filter(|e: EntryView| !deleted(e.index, start, stop))
}

/// The log with `e` put in its place by index, replacing an entry of the same index.
pub open spec fn put_of(log: Seq<EntryView>, e: EntryView) -> Seq<EntryView> {
    log.filter(|x: EntryView| x.index < e.index).push(e) + log.filter(
        |x: EntryView| x.index > e.index,
    )
}

/// Whether the log holds an entry with index `i`.
pub open spec fn has_index(log: Seq<EntryView>, i: u64) -> bool {
    exists|k: int| 0 <= k < log.len() && #[trigger] log[k].index == i
}

pub struct LogStoreView {
    pub log: Seq<EntryView>,
    pub last_applied: u64,
    pub hard_state: Option<HardState>,
    pub snapshot: Option<SnapshotMetaView>,
}

/// Why an append was refused.
#[derive(Clone, Copy, Debug, PartialEq, Eq, Structural)]
pub enum AppendError {
    /// The entry's index does not follow the last index of the log.
    IndexGap { last: u64, got: u64 },
}

/// One node's log and meta keyspace.
pub struct LogStore {
    entries: Vec<Entry>,
    last_applied: u64,
    hard_state: Option<HardState>,
    snapshot: Option<SnapshotMeta>,
}

pub proof fn lemma_filter_push<A>(s: Seq<A>, x: A, pred: spec_fn(A) -> bool)
    ensures
        s.push(x).filter(pred) == (if pred(x) {
            s.filter(pred).push(x)
        } else {
            s.filter(pred)
        }),
        Seq::<A>::empty().filter(pred) == Seq::<A>::empty(),
{
    reveal(Seq::filter);
    assert(s.push(x).drop_last() =~= s);
}

pub proof fn lemma_views_push(s: Seq<Entry>, i: int)
    requires
        0 <= i < s.len(),
    ensures
        views(s.subrange(0, i + 1)) == views(s.subrange(0, i)).push(s[i]@),
        views(s)[i] == s[i]@,
        views(s).len() == s.len(),
{
    assert(views(s.subrange(0, i + 1)) =~= views(s.subrange(0, i)).push(s[i]@));
}

proof fn lemma_views_all(s: Seq<Entry>)
    ensures
        views(s.subrange(0, s.len() as int)) == views(s),
        views(s.subrange(0, 0)) == Seq::<EntryView>::empty(),
{
    assert(s.subrange(0, s.len() as int) =~= s);
    assert(views(s.subrange(0, 0)) =~= Seq::<EntryView>::empty());
}

/// A filtered sorted log is sorted, and lies within the log.
pub proof fn lemma_filter_sorted(log: Seq<EntryView>, pred: spec_fn(EntryView) -> bool)
    requires
        sorted(log),
    ensures
        sorted(log.filter(pred)),
        forall|k: int|
            0 <= k < log.filter(pred).len() ==> (#[trigger] log.filter(pred)[k]).index
                >= log[0].index && log.filter(pred)[k].index <= log.last().index && exists|j: int|
                0 <= j < log.len() && log[j] == log.filter(pred)[k] && pred(log[j]),
    decreases log.len(),
{
    reveal(Seq::filter);
    if log.len() > 0 {
        let d = log.drop_last();
        assert(sorted(d));
        lemma_filter_sorted(d, pred);
        assert(log =~= d.push(log.last()));
        lemma_filter_push(d, log.last(), pred);
        let f = log.filter(pred);
        let fd = d.filter(pred);
        assert forall|k: int| 0 <= k < fd.len() implies exists|j: int|
            0 <= j < log.len() && log[j] == #[trigger] fd[k] && pred(log[j]) by {
            let j = choose|j: int| 0 <= j < d.len() && d[j] == fd[k] && pred(d[j]);
            assert(log[j] == d[j]);
        }
        if d.len() > 0 {
            assert forall|k: int| 0 <= k < fd.len() implies #[trigger] fd[k].index
                < log.last().index by {
                let j = choose|j: int| 0 <= j < d.len() && d[j] == fd[k] && pred(d[j]);
                assert(log[j] == d[j]);
            }
            assert forall|k: int| 0 <= k < fd.len() implies #[trigger] fd[k].index >= log[0].index by {
                assert(d[0] == log[0]);
            }
        }
        if pred(log.last()) {
            assert(f =~= fd.push(log.last()));
            assert(f[f.len() - 1] == log[log.len() - 1]);
        } else {
            assert(f == fd);
            if d.len() > 0 {
                assert forall|k: int| 0 <= k < f.len() implies #[trigger] f[k].index
                    <= log.last().index by {
                    assert(fd[k].index < log.last().index);
                }
            }
        }
    }
}

impl View for LogStore {
    type V = LogStoreView;

    closed spec fn view(&self) -> LogStoreView {
        LogStoreView {
            log: views(self.entries@),
            last_applied: self.last_applied,
            hard_state: self.hard_state,
            snapshot: match self.snapshot {
                Some(s) => Some(s@),
                None => None,
            },
        }
    }
}

impl LogStore {
    /// The store's log is ordered by index.
    pub open spec fn wf(&self) -> bool {
        sorted(self@.log)
    }

    /// A store as on first boot: empty log, nothing applied, no hard state,
    /// no snapshot.
    pub fn new() -> (r: LogStore)
        ensures
            r.wf(),
            r@.log == Seq::<EntryView>::empty(),
            r@.last_applied == 0,
            r@.hard_state is None,
            r@.snapshot is None,
    {
        let r = LogStore { entries: Vec::new(), last_applied: 0, hard_state: None, snapshot: None };
        assert(r@.log =~= Seq::<EntryView>::empty());
        r
    }

    /// A store rebuilt from what was persisted; `None` where the entries are
    /// not in strictly increasing index order.
    pub fn from_parts(
        entries: Vec<Entry>,
        last_applied: u64,
        hard_state: Option<HardState>,
        snapshot: Option<SnapshotMeta>,
    ) -> (r: Option<LogStore>)
        ensures
            r is Some <==> sorted(views(entries@)),
            r matches Some(s) ==> s.wf() && s@.log == views(entries@) && s@.last_applied
                == last_applied && s@.hard_state == hard_state && s@.snapshot == match snapshot {
                Some(m) => Some(m@),
                None => None::<SnapshotMetaView>,
            },
    {
        let mut i: usize = 1;
        while i < entries.len()
            invariant
                1 <= i <= entries.len() || entries.len() == 0,
                forall|a: int, b: int|
                    0 <= a < b < i && b < entries.len() ==> #[trigger] entries@[a].index
                        < #[trigger] entries@[b].index,
            decreases entries.len() - i,
        {
            if entries[i - 1].index >= entries[i].index {
                proof {
                    let v = views(entries@);
                    assert(v[i - 1].index >= v[i as int].index);
                }
                return None;
            }
            i = i + 1;
        }
        proof {
            let v = views(entries@);
            assert forall|a: int, b: int| 0 <= a < b < v.len() implies #[trigger] v[a].index
                < #[trigger] v[b].index by {
                assert(v[a] == entries@[a]@);
                assert(v[b] == entries@[b]@);
            }
        }
        Some(LogStore { entries, last_applied, hard_state, snapshot })
    }

    /// Index and term of the last entry, `(0, 0)` when the log is empty.
    pub fn last(&self) -> (r: (u64, u64))
        ensures
            r == last_id(self@.log),
    {
        if self.entries.len() == 0 {
            (0, 0)
        } else {
            let e = &self.entries[self.entries.len() - 1];
            (e.index, e.term)
        }
    }

    /// Number of entries in the log.
    pub fn len(&self) -> (r: usize)
        ensures
            r == self@.log.len(),
    {
        self.entries.len()
    }

    /// The entry at position `k` of the log.
    pub fn entry(&self, k: usize) -> (r: &Entry)
        requires
            k < self@.log.len(),
        ensures
            r@ == self@.log[k as int],
    {
        &self.entries[k]
    }

    /// The entry with index `index`, if the log holds one.
    pub fn get(&self, index: u64) -> (r: Option<Entry>)
        requires
            self.wf(),
        ensures
            r is None <==> !has_index(self@.log, index),
            r matches Some(e) ==> e@.index == index && exists|k: int|
                0 <= k < self@.log.len() && self@.log[k] == e@,
    {
        let mut k: usize = 0;
        while k < self.entries.len()
            invariant
                0 <= k <= self.entries.len(),
                self@.log == views(self.entries@),
                forall|j: int| 0 <= j < k ==> (#[trigger] self@.log[j]).index != index,
            decreases self.entries.len() - k,
        {
            if self.entries[k].index == index {
                let e = self.entries[k].copy();
                assert(self@.log[k as int] == self.entries@[k as int]@);
                assert(self@.log[k as int].index == index);
                assert(has_index(self@.log, index));
                return Some(e);
            }
            assert(self@.log[k as int] == self.entries@[k as int]@);
            k = k + 1;
        }
        None
    }

    /// The entries with index in `[lo, hi)`, in index order; empty when `lo >= hi`.
    pub fn range(&self, lo: u64, hi: u64) -> (r: Vec<Entry>)
        ensures
            views(r@) == range_of(self@.log, lo, hi),
    {
        let ghost pred = |e: EntryView| in_range(e, lo, hi);
        let mut r: Vec<Entry> = Vec::new();
        let mut k: usize = 0;
        proof {
            lemma_views_all(self.entries@);
            assert(views(r@) =~= Seq::<EntryView>::empty());
        }
        while k < self.entries.len()
            invariant
                0 <= k <= self.entries.len(),
                views(r@) == views(self.entries@.subrange(0, k as int)).filter(pred),
                pred == (|e: EntryView| in_range(e, lo, hi)),
            decreases self.entries.len() - k,
        {
            proof {
                lemma_views_push(self.entries@, k as int);
                lemma_filter_push(
                    views(self.entries@.subrange(0, k as int)),
                    self.entries@[k as int]@,
                    pred,
                );
            }
            let e = &self.entries[k];
            if lo <= e.index && e.index < hi {
                let c = e.copy();
                let ghost before = r@;
                r.push(c);
                assert(views(r@) =~= views(before).push(c@));
            }
            k = k + 1;
        }
        proof {
            lemma_views_all(self.entries@);
        }
        r
    }

    /// Append an entry whose index follows the last one (or is 1 on an empty log).
    pub fn append(&mut self, e: Entry) -> (r: Result<(), AppendError>)
        requires
            old(self).wf(),
        ensures
            final(self).wf(),
            r is Ok <==> e.index as int == last_index(old(self)@.log) + 1,
            r is Ok ==> final(self)@ == (LogStoreView { log: old(self)@.log.push(e@), ..old(self)@ }),
            r is Err ==> final(self)@ == old(self)@,
            r matches Err(AppendError::IndexGap { last, got }) ==> last == last_index(old(self)@.log)
                && got == e.index,
    {
        let (last, _) = self.last();
        if e.index == 0 || e.index - 1 != last {
            return Err(AppendError::IndexGap { last, got: e.index });
        }
        let ghost pre = self.entries@;
        self.entries.push(e);
        proof {
            assert(views(self.entries@) =~= views(pre).push(self.entries@.last()@));
            let l = views(self.entries@);
            assert forall|i: int, j: int| 0 <= i < j < l.len() implies #[trigger] l[i].index
                < #[trigger] l[j].index by {
                if j == l.len() - 1 && i < j {
                    assert(views(pre)[i].index <= last);
                    if pre.len() > 0 {
                        assert(views(pre)[i].index <= views(pre).last().index);
                    }
                }
            }
        }
        Ok(())
    }

    /// Append entries one after another; stops at the first whose index does
    /// not follow, keeping those appended before it.
    pub fn append_batch(&mut self, entries: Vec<Entry>) -> (r: Result<(), AppendError>)
        requires
            old(self).wf(),
        ensures
            final(self).wf(),
            r is Ok <==> contiguous_from(views(entries@), last_index(old(self)@.log)),
            r is Ok ==> final(self)@ == (LogStoreView {
                log: old(self)@.log + views(entries@),
                ..old(self)@
            }),
            exists|n: int|
                0 <= n <= entries@.len() && final(self)@.log == old(self)@.log + views(
                    entries@,
                ).subrange(0, n),
            final(self)@.last_applied == old(self)@.last_applied,
            final(self)@.hard_state == old(self)@.hard_state,
            final(self)@.snapshot == old(self)@.snapshot,
    {
        let ghost all = views(entries@);
        let ghost base = last_index(old(self)@.log);
        let mut k: usize = 0;
        proof {
            assert(old(self)@.log =~= old(self)@.log + all.subrange(0, 0));
        }
        while k < entries.len()
            invariant
                self.wf(),
                0 <= k <= entries.len(),
                all == views(entries@),
                self@.log == old(self)@.log + all.subrange(0, k as int),
                contiguous_from(all.subrange(0, k as int), base),
                base == last_index(old(self)@.log),
                self@.last_applied == old(self)@.last_applied,
                self@.hard_state == old(self)@.hard_state,
                self@.snapshot == old(self)@.snapshot,
            decreases entries.len() - k,
        {
            let e = entries[k].copy();
            assert(e@ == all[k as int]);
            proof {
                lemma_contiguous_last(old(self)@.log, all.subrange(0, k as int), base);
            }
            match self.append(e) {
                Ok(()) => {
                    proof {
                        assert(all.subrange(0, k + 1) =~= all.subrange(0, k as int).push(all[k as int]));
                        lemma_contiguous_push(all.subrange(0, k as int), all[k as int], base);
                        assert(self@.log =~= old(self)@.log + all.subrange(0, k + 1));
                    }
                },
                Err(err) => {
                    proof {
                        lemma_contiguous_break(all, k as int, base);
                        assert(self@.log == old(self)@.log + views(entries@).subrange(0, k as int));
                    }
                    return Err(err);
                },
            }
            k = k + 1;
        }
        proof {
            assert(all.subrange(0, all.len() as int) =~= all);
            assert(self@.log == old(self)@.log + views(entries@).subrange(0, all.len() as int));
        }
        Ok(())
    }

    /// Remove every entry with index in `[start, stop)`, or from `start` on
    /// when `stop` is `None`.
    pub fn delete_from(&mut self, start: u64, stop: Option<u64>)
        requires
            old(self).wf(),
        ensures
            final(self).wf(),
            final(self)@ == (LogStoreView {
                log: delete_of(old(self)@.log, start, stop),
                ..old(self)@
            }),
    {
        let ghost pred = |e: EntryView| !deleted(e.index, start, stop);
        let ghost old_log = self@.log;
        let mut kept: Vec<Entry> = Vec::new();
        let mut k: usize = 0;
        proof {
            lemma_views_all(self.entries@);
            assert(views(kept@) =~= Seq::<EntryView>::empty());
        }
        while k < self.entries.len()
            invariant
                0 <= k <= self.entries.len(),
                views(kept@) == views(self.entries@.subrange(0, k as int)).filter(pred),
                pred == (|e: EntryView| !deleted(e.index, start, stop)),
                old_log == views(self.entries@),
            decreases self.entries.len() - k,
        {
            proof {
                lemma_views_push(self.entries@, k as int);
                lemma_filter_push(
                    views(self.entries@.subrange(0, k as int)),
                    self.entries@[k as int]@,
                    pred,
                );
            }
            let e = &self.entries[k];
            let gone = start <= e.index && match stop {
                Some(s) => e.index < s,
                None => true,
            };
            if !gone {
                let c = e.copy();
                let ghost before = kept@;
                kept.push(c);
                assert(views(kept@) =~= views(before).push(c@));
            }
            k = k + 1;
        }
        proof {
            lemma_views_all(self.entries@);
            lemma_filter_sorted(old_log, pred);
        }
        self.entries = kept;
    }

    /// Remove every entry; the meta keyspace stays.
    pub fn clear_log(&mut self)
        ensures
            final(self).wf(),
            final(self)@ == (LogStoreView { log: Seq::<EntryView>::empty(), ..old(self)@ }),
    {
        self.entries = Vec::new();
        assert(self@.log =~= Seq::<EntryView>::empty());
    }

    /// Put `e` at its place by index, replacing an entry with the same index.
    pub fn put(&mut self, e: Entry)
        requires
            old(self).wf(),
        ensures
            final(self).wf(),
            final(self)@ == (LogStoreView { log: put_of(old(self)@.log, e@), ..old(self)@ }),
    {
        let ghost old_log = self@.log;
        let ghost lt = |x: EntryView| x.index < e@.index;
        let ghost gt = |x: EntryView| x.index > e@.index;
        let mut out: Vec<Entry> = Vec::new();
        let mut k: usize = 0;
        proof {
            lemma_views_all(self.entries@);
            assert(views(out@) =~= Seq::<EntryView>::empty());
        }
        while k < self.entries.len()
            invariant
                0 <= k <= self.entries.len(),
                views(out@) == views(self.entries@.subrange(0, k as int)).filter(lt),
                lt == (|x: EntryView| x.index < e@.index),
                old_log == views(self.entries@),
            decreases self.entries.len() - k,
        {
            proof {
                lemma_views_push(self.entries@, k as int);
                lemma_filter_push(views(self.entries@.subrange(0, k as int)), self.entries@[k as int]@, lt);
            }
            if self.entries[k].index < e.index {
                let c = self.entries[k].copy();
                let ghost before = out@;
                out.push(c);
                assert(views(out@) =~= views(before).push(c@));
            }
            k = k + 1;
        }
        proof {
            lemma_views_all(self.entries@);
        }
        let ghost head = views(out@);
        let ghost e_view = e@;
        let ghost pre_out = out@;
        let e_index = e.index;
        out.push(e);
        proof {
            assert(views(out@) =~= views(pre_out).push(e_view));
            assert(views(out@) =~= views(out@) + views(self.entries@.subrange(0, 0)).filter(gt));
        }
        let mut k: usize = 0;
        while k < self.entries.len()
            invariant
                0 <= k <= self.entries.len(),
                views(out@) == head.push(e_view) + views(self.entries@.subrange(0, k as int)).filter(gt),
                gt == (|x: EntryView| x.index > e_view.index),
                e_index == e_view.index,
                old_log == views(self.entries@),
            decreases self.entries.len() - k,
        {
            proof {
                lemma_views_push(self.entries@, k as int);
                lemma_filter_push(views(self.entries@.subrange(0, k as int)), self.entries@[k as int]@, gt);
            }
            if self.entries[k].index > e_index {
                let c = self.entries[k].copy();
                let ghost before = out@;
                out.push(c);
                assert(views(out@) =~= views(before).push(c@));
            }
            k = k + 1;
        }
        proof {
            lemma_views_all(self.entries@);
            lemma_filter_sorted(old_log, lt);
            lemma_filter_sorted(old_log, gt);
            let a = old_log.filter(lt);
            let b = old_log.filter(gt);
            let l = views(out@);
            assert(l =~= a.push(e_view) + b);
            assert forall|i: int, j: int| 0 <= i < j < l.len() implies #[trigger] l[i].index
                < #[trigger] l[j].index by {
                if j < a.len() {
                } else if j == a.len() {
                    assert(l[i] == a[i]);
                    let w = choose|w: int| 0 <= w < old_log.len() && old_log[w] == a[i] && lt(old_log[w]);
                } else {
                    let jj = j - a.len() - 1;
                    assert(l[j] == b[jj]);
                    let w = choose|w: int| 0 <= w < old_log.len() && old_log[w] == b[jj] && gt(old_log[w]);
                    if i < a.len() {
                        assert(l[i] == a[i]);
                        let v = choose|v: int| 0 <= v < old_log.len() && old_log[v] == a[i] && lt(old_log[v]);
                    } else if i > a.len() {
                        assert(l[i] == b[i - a.len() - 1]);
                    }
                }
            }
        }
        self.entries = out;
    }

    /// The index of the last entry applied to the state machine.
    pub fn last_applied(&self) -> (r: u64)
        ensures
            r == self@.last_applied,
    {
        self.last_applied
    }

    /// Record `index` as the last entry applied.
    pub fn set_last_applied(&mut self, index: u64)
        ensures
            final(self)@ == (LogStoreView { last_applied: index, ..old(self)@ }),
    {
        self.last_applied = index;
    }

    /// The persisted hard state, `None` before the first boot finished.
    pub fn hard_state(&self) -> (r: Option<HardState>)
        ensures
            r == self@.hard_state,
    {
        self.hard_state
    }

    /// Overwrite the hard state.
    pub fn set_hard_state(&mut self, hs: HardState)
        ensures
            final(self)@ == (LogStoreView { hard_state: Some(hs), ..old(self)@ }),
    {
        self.hard_state = Some(hs);
    }

    /// The current snapshot, if any.
    pub fn snapshot_meta(&self) -> (r: Option<SnapshotMeta>)
        ensures
            r is None <==> self@.snapshot is None,
            r matches Some(m) ==> self@.snapshot == Some(m@),
    {
        match &self.snapshot {
            Some(m) => Some(m.copy()),
            None => None,
        }
    }

    /// Make `meta` the current snapshot.
    pub fn set_snapshot_meta(&mut self, meta: SnapshotMeta)
        ensures
            final(self)@ == (LogStoreView { snapshot: Some(meta@), ..old(self)@ }),
    {
        self.snapshot = Some(meta);
    }

    /// The first index of the log above `cur`; on an ordered log the
    /// smallest one.
    pub fn index_after(&self, cur: u64) -> (r: Option<u64>)
        ensures
            r == next_index(self@.log, cur),
    {
        let n = self.entries.len();
        let mut k: usize = 0;
        proof {
            assert(self@.log.subrange(0, n as int) =~= self@.log);
        }
        while k < n
            invariant
                0 <= k <= n,
                n == self@.log.len(),
                self@.log == views(self.entries@),
                next_index(self@.log, cur) == next_index(self@.log.subrange(k as int, n as int), cur),
            decreases n - k,
        {
            let ghost rest = self@.log.subrange(k as int, n as int);
            proof {
                assert(rest[0] == self.entries@[k as int]@);
                assert(rest.drop_first() =~= self@.log.subrange(k + 1, n as int));
            }
            if self.entries[k].index > cur {
                return Some(self.entries[k].index);
            }
            k = k + 1;
        }
        None
    }

    /// The last index of the log below `cur`; on an ordered log the largest one.
    pub fn index_before(&self, cur: u64) -> (r: Option<u64>)
        ensures
            r == prev_index(self@.log, cur),
    {
        let n = self.entries.len();
        let mut k: usize = n;
        proof {
            assert(self@.log.subrange(0, n as int) =~= self@.log);
        }
        while k > 0
            invariant
                0 <= k <= n,
                n == self@.log.len(),
                self@.log == views(self.entries@),
                prev_index(self@.log, cur) == prev_index(self@.log.subrange(0, k as int), cur),
            decreases k,
        {
            let ghost head = self@.log.subrange(0, k as int);
            proof {
                assert(head.last() == self.entries@[k - 1]@);
                assert(head.drop_last() =~= self@.log.subrange(0, k - 1));
            }
            if self.entries[k - 1].index < cur {
                return Some(self.entries[k - 1].index);
            }
            k = k - 1;
        }
        None
    }
}

/// The first index in `log` above `cur`.
pub open spec fn next_index(log: Seq<EntryView>, cur: u64) -> Option<u64>
    decreases log.len(),
{
    if log.len() == 0 {
        None
    } else if log[0].index > cur {
        Some(log[0].index)
    } else {
        next_index(log.drop_first(), cur)
    }
}

/// The last index in `log` below `cur`.
pub open spec fn prev_index(log: Seq<EntryView>, cur: u64) -> Option<u64>
    decreases log.len(),
{
    if log.len() == 0 {
        None
    } else if log.last().index < cur {
        Some(log.last().index)
    } else {
        prev_index(log.drop_last(), cur)
    }
}

/// A cursor over the log walks the indices of its entries: forward from
/// before the first, backward from after the last.
impl Iterator<u64> for LogStore {
    open spec fn start(&self) -> u64 {
        0
    }

    open spec fn end(&self) -> u64 {
        u64::MAX
    }

    open spec fn after(&self, cur: u64) -> Option<u64> {
        next_index(self@.log, cur)
    }

    open spec fn before(&self, cur: u64) -> Option<u64> {
        prev_index(self@.log, cur)
    }

    fn iter(&self) -> (r: Iter<'_, LogStore, u64>) {
        Iter { data: self, cur: 0 }
    }

    fn rev_iter(&self) -> (r: Iter<'_, LogStore, u64>) {
        Iter { data: self, cur: u64::MAX }
    }

    fn next(iter: &mut Iter<'_, LogStore, u64>) -> (r: Option<u64>) {
        let r = iter.data.index_after(iter.cur);
        if let Some(i) = r {
            iter.cur = i;
        }
        r
    }

    fn prev(iter: &mut Iter<'_, LogStore, u64>) -> (r: Option<u64>) {
        let r = iter.data.index_before(iter.cur);
        if let Some(i) = r {
            iter.cur = i;
        }
        r
    }
}

/// Each entry's index is one more than the one before it, starting after `base`.
pub open spec fn contiguous_from(s: Seq<EntryView>, base: u64) -> bool {
    forall|k: int| 0 <= k < s.len() ==> (#[trigger] s[k]).index as int == base + k + 1
}

proof fn lemma_contiguous_last(log: Seq<EntryView>, done: Seq<EntryView>, base: u64)
    requires
        contiguous_from(done, base),
        base == last_index(log),
    ensures
        last_index(log + done) as int == base + done.len(),
{
    if done.len() > 0 {
        assert((log + done).last() == done[done.len() - 1]);
    } else {
        assert(log + done =~= log);
    }
}

proof fn lemma_contiguous_push(done: Seq<EntryView>, e: EntryView, base: u64)
    requires
        contiguous_from(done, base),
        e.index as int == base + done.len() + 1,
    ensures
        contiguous_from(done.push(e), base),
{
    assert forall|k: int| 0 <= k < done.push(e).len() implies (#[trigger] done.push(e)[k]).index
        as int == base + k + 1 by {
        if k < done.len() {
            assert(done.push(e)[k] == done[k]);
        }
    }
}

proof fn lemma_contiguous_break(all: Seq<EntryView>, pos: int, base: u64)
    requires
        0 <= pos < all.len(),
        all[pos].index as int != base + pos + 1,
    ensures
        !contiguous_from(all, base),
{
}

} // verus!
