//! The key-value state machine that the service replicates: keys are `u64`,
//! values bytes. Commands, replies and snapshots are byte strings whose
//! layout this module defines.
use vstd::prelude::*;

use crate::log_key::{
    KEY_LEN, be_value, decode_index, encode_index, index_key, lemma_be_bytes_len,
    lemma_be_value_bound, lemma_key_round_trip, lemma_pow256_8,
};
use crate::wire::key_of_value;
use crate::log_store::lemma_filter_push;

use vstd::string::StringExecFns;
use crate::storage::{AppError, RaftApp};

verus! {

/// The contents of the store: key-value pairs in strictly increasing key order.
pub type KvState = Seq<(u64, Seq<u8>)>;

pub open spec fn sorted_keys(s: KvState) -> bool {
    forall|i: int, j: int| 0 <= i < j < s.len() ==> #[trigger] s[i].0 < #[trigger] s[j].0
}

/// Every value's length fits a `u64`, as the length of a byte vector does.
pub open spec fn values_fit(s: KvState) -> bool {
    forall|i: int| 0 <= i < s.len() ==> (#[trigger] s[i]).1.len() <= u64::MAX
}

/// The value stored under `k`.
pub open spec fn kv_get(s: KvState, k: u64) -> Option<Seq<u8>>
    decreases s.len(),
{
    if s.len() == 0 {
        None
    } else if s.last().0 == k {
        Some(s.last().1)
    } else {
        kv_get(s.drop_last(), k)
    }
}

/// The store after setting `k` to `v`.
pub open spec fn kv_insert(s: KvState, k: u64, v: Seq<u8>) -> KvState {
    s.filter(|e: (u64, Seq<u8>)| e.0 < k).push((k, v)) + s.filter(|e: (u64, Seq<u8>)| e.0 > k)
}

/// Whether a pair is under another key than `k`.
pub open spec fn other_key(k: u64) -> spec_fn((u64, Seq<u8>)) -> bool {
    |e: (u64, Seq<u8>)| e.0 != k
}

/// The store after removing `k`.
pub open spec fn kv_remove(s: KvState, k: u64) -> KvState {
    s.filter(other_key(k))
}

/// A write command.
pub enum KvOp {
    Insert(u64, Seq<u8>),
    Remove(u64),
}

/// The command that bytes encode: `0, key, value` inserts, `1, key` removes,
/// the key as eight big-endian bytes.
pub open spec fn parse_command(c: Seq<u8>) -> Option<KvOp> {
    if c.len() >= 9 && c[0] == 0 {
        Some(KvOp::Insert(be_value(c.subrange(1, 9)) as u64, c.subrange(9, c.len() as int)))
    } else if c.len() == 9 && c[0] == 1 {
        Some(KvOp::Remove(be_value(c.subrange(1, 9)) as u64))
    } else {
        None
    }
}

pub open spec fn insert_command(k: u64, v: Seq<u8>) -> Seq<u8> {
    seq![0u8] + index_key(k) + v
}

pub open spec fn remove_command(k: u64) -> Seq<u8> {
    seq![1u8] + index_key(k)
}

/// The store after a command.
pub open spec fn apply_op(s: KvState, op: KvOp) -> KvState {
    match op {
        KvOp::Insert(k, v) => kv_insert(s, k, v),
        KvOp::Remove(k) => kv_remove(s, k),
    }
}

/// The key a command touches.
pub open spec fn op_key(op: KvOp) -> u64 {
    match op {
        KvOp::Insert(k, _) => k,
        KvOp::Remove(k) => k,
    }
}

/// A value that may be absent: `0` for none, `1` then the value.
pub open spec fn encode_option(v: Option<Seq<u8>>) -> Seq<u8> {
    match v {
        Some(b) => seq![1u8] + b,
        None => seq![0u8],
    }
}

/// One pair of a snapshot: key, value length, value.
pub open spec fn record(k: u64, v: Seq<u8>) -> Seq<u8> {
    index_key(k) + index_key(v.len() as u64) + v
}

/// The snapshot of a store: its pairs' records in key order.
pub open spec fn encode_kv(s: KvState) -> Seq<u8>
    decreases s.len(),
{
    if s.len() == 0 {
        Seq::empty()
    } else {
        record(s[0].0, s[0].1) + encode_kv(s.drop_first())
    }
}

/// The pairs that a snapshot's records hold; `None` where the bytes are not
/// whole records.
pub open spec fn decode_kv(b: Seq<u8>) -> Option<KvState>
    decreases b.len(),
{
    if b.len() == 0 {
        Some(Seq::empty())
    } else if b.len() < 16 {
        None
    } else {
        let n = be_value(b.subrange(8, 16));
        if n > b.len() - 16 {
            None
        } else {
            match decode_kv(b.subrange(16 + n as int, b.len() as int)) {
                Some(rest) => Some(
                    seq![(be_value(b.subrange(0, 8)) as u64, b.subrange(16, 16 + n as int))] + rest,
                ),
                None => None,
            }
        }
    }
}

/// Restoring from a snapshot gives back exactly the store it was taken of,
/// whatever was written in between.
pub proof fn lemma_restore_snapshot(s: KvState)
    requires
        sorted_keys(s),
        values_fit(s),
    ensures
        decode_kv(encode_kv(s)) == Some(s),
    decreases s.len(),
{
    if s.len() > 0 {
        let rest = s.drop_first();
        assert(sorted_keys(rest));
        assert(values_fit(rest));
        lemma_restore_snapshot(rest);
        let b = encode_kv(s);
        let k = s[0].0;
        let v = s[0].1;
        lemma_be_bytes_len(k as nat, 8);
        lemma_be_bytes_len((v.len() as u64) as nat, 8);
        lemma_key_round_trip(k);
        let r = record(k, v);
        assert(b == r + encode_kv(rest));
        assert(b.subrange(0, 8) =~= index_key(k));
        assert(b.subrange(8, 16) =~= index_key(v.len() as u64));
        lemma_key_round_trip(v.len() as u64);
        assert(b.subrange(16 + v.len() as int, b.len() as int) =~= encode_kv(rest));
        assert(b.subrange(16, 16 + v.len() as int) =~= v);
        assert(seq![(k, v)] + rest =~= s);
    }
}

/// Two valid stores have the same snapshot bytes exactly when they hold the
/// same pairs.
pub proof fn lemma_snapshot_identifies_state(a: KvState, b: KvState)
    requires
        sorted_keys(a),
        values_fit(a),
        sorted_keys(b),
        values_fit(b),
    ensures
        encode_kv(a) == encode_kv(b) <==> a == b,
{
    lemma_restore_snapshot(a);
    lemma_restore_snapshot(b);
}

proof fn lemma_encode_push(s: KvState, k: u64, v: Seq<u8>)
    ensures
        encode_kv(s.push((k, v))) == encode_kv(s) + record(k, v),
    decreases s.len(),
{
    if s.len() == 0 {
        assert(s.push((k, v)).drop_first() =~= Seq::<(u64, Seq<u8>)>::empty());
        assert(encode_kv(s.push((k, v)).drop_first()) == Seq::<u8>::empty());
        assert(encode_kv(s) == Seq::<u8>::empty());
        assert(encode_kv(s.push((k, v))) =~= record(k, v));
        assert(encode_kv(s) + record(k, v) =~= record(k, v));
    } else {
        assert(s.push((k, v)).drop_first() =~= s.drop_first().push((k, v)));
        lemma_encode_push(s.drop_first(), k, v);
        assert(encode_kv(s.push((k, v))) =~= encode_kv(s) + record(k, v));
    }
}

fn read_u64_at(b: &Vec<u8>, at: usize) -> (r: u64)
    requires
        at + 8 <= b@.len(),
    ensures
        r as nat == be_value(b@.subrange(at as int, at + 8)),
{
    let blen = b.len();
    let mut key: Vec<u8> = Vec::new();
    let mut k: usize = 0;
    while k < 8
        invariant
            0 <= k <= 8,
            blen == b@.len(),
            at + 8 <= b@.len(),
            key@ == b@.subrange(at as int, at + k),
        decreases 8 - k,
    {
        key.push(b[at + k]);
        k = k + 1;
        assert(key@ =~= b@.subrange(at as int, at + k));
    }
    match decode_index(key.as_slice()) {
        Some(n) => n,
        None => 0,
    }
}

fn append_range(out: &mut Vec<u8>, src: &Vec<u8>, from: usize, to: usize)
    requires
        from <= to <= src@.len(),
    ensures
        final(out)@ == old(out)@ + src@.subrange(from as int, to as int),
{
    let mut k: usize = from;
    while k < to
        invariant
            from <= k <= to,
            to <= src@.len(),
            out@ == old(out)@ + src@.subrange(from as int, k as int),
        decreases to - k,
    {
        out.push(src[k]);
        k = k + 1;
        assert(out@ =~= old(out)@ + src@.subrange(from as int, k as int));
    }
}

fn append_key(out: &mut Vec<u8>, n: u64)
    ensures
        final(out)@ == old(out)@ + index_key(n),
{
    let key = encode_index(n);
    append_range(out, &key, 0, key.len());
    assert(key@.subrange(0, key@.len() as int) =~= key@);
}

fn copy_range(src: &Vec<u8>, from: usize, to: usize) -> (r: Vec<u8>)
    requires
        from <= to <= src@.len(),
    ensures
        r@ == src@.subrange(from as int, to as int),
{
    let mut r: Vec<u8> = Vec::new();
    append_range(&mut r, src, from, to);
    assert(r@ =~= src@.subrange(from as int, to as int));
    r
}

/// The optional value in the layout of `encode_option`.
fn encode_value(v: &Option<Vec<u8>>) -> (r: Vec<u8>)
    ensures
        r@ == encode_option(
            match v {
                Some(b) => Some(b@),
                None => None,
            },
        ),
{
    let mut r: Vec<u8> = Vec::new();
    match v {
        Some(b) => {
            r.push(1u8);
            append_range(&mut r, b, 0, b.len());
            assert(b@.subrange(0, b@.len() as int) =~= b@);
            assert(r@ =~= seq![1u8] + b@);
        },
        None => {
            r.push(0u8);
            assert(r@ =~= seq![0u8]);
        },
    }
    r
}

/// The command that inserts `value` under `key`.
pub fn encode_insert(key: u64, value: &Vec<u8>) -> (r: Vec<u8>)
    ensures
        r@ == insert_command(key, value@),
        parse_command(r@) == Some(KvOp::Insert(key, value@)),
{
    let mut r: Vec<u8> = Vec::new();
    r.push(0u8);
    append_key(&mut r, key);
    append_range(&mut r, value, 0, value.len());
    proof {
        assert(value@.subrange(0, value@.len() as int) =~= value@);
        lemma_be_bytes_len(key as nat, 8);
        lemma_key_round_trip(key);
        assert(r@.subrange(1, 9) =~= index_key(key));
        assert(r@.subrange(9, r@.len() as int) =~= value@);
    }
    r
}

/// The command that removes `key`.
pub fn encode_remove(key: u64) -> (r: Vec<u8>)
    ensures
        r@ == remove_command(key),
        parse_command(r@) == Some(KvOp::Remove(key)),
{
    let mut r: Vec<u8> = Vec::new();
    r.push(1u8);
    append_key(&mut r, key);
    proof {
        lemma_be_bytes_len(key as nat, 8);
        lemma_key_round_trip(key);
        assert(r@.subrange(1, 9) =~= index_key(key));
    }
    r
}

/// The query that reads `key`.
pub fn encode_read(key: u64) -> (r: Vec<u8>)
    ensures
        r@ == index_key(key),
{
    encode_index(key)
}

pub struct KvStateMachine {
    pairs: Vec<(u64, Vec<u8>)>,
}

pub open spec fn pair_views(s: Seq<(u64, Vec<u8>)>) -> KvState {
    s.map_values(|p: (u64, Vec<u8>)| (p.0, p.1@))
}

impl View for KvStateMachine {
    type V = KvState;

    closed spec fn view(&self) -> KvState {
        pair_views(self.pairs@)
    }
}

proof fn lemma_pair_views_push(s: Seq<(u64, Vec<u8>)>, i: int)
    requires
        0 <= i < s.len(),
    ensures
        pair_views(s.subrange(0, i + 1)) == pair_views(s.subrange(0, i)).push((s[i].0, s[i].1@)),
        pair_views(s)[i] == (s[i].0, s[i].1@),
        pair_views(s).len() == s.len(),
{
    assert(pair_views(s.subrange(0, i + 1)) =~= pair_views(s.subrange(0, i)).push((s[i].0, s[i].1@)));
}

proof fn lemma_pair_views_all(s: Seq<(u64, Vec<u8>)>)
    ensures
        pair_views(s.subrange(0, s.len() as int)) == pair_views(s),
        pair_views(s.subrange(0, 0)) == Seq::<(u64, Seq<u8>)>::empty(),
{
    assert(s.subrange(0, s.len() as int) =~= s);
    assert(pair_views(s.subrange(0, 0)) =~= Seq::<(u64, Seq<u8>)>::empty());
}

/// Keys strictly increase and every value's length fits a `u64`.
pub open spec fn valid_state(s: KvState) -> bool {
    sorted_keys(s) && values_fit(s)
}

impl KvStateMachine {
    #[verifier::type_invariant]
    spec fn inv(&self) -> bool {
        valid_state(pair_views(self.pairs@))
    }

    /// An empty store.
    pub fn new() -> (r: KvStateMachine)
        ensures
            r@ == Seq::<(u64, Seq<u8>)>::empty(),
            valid_state(r@),
    {
        let r = KvStateMachine { pairs: Vec::new() };
        assert(r@ =~= Seq::<(u64, Seq<u8>)>::empty());
        r
    }

    /// The value stored under `key`.
    pub fn get(&self, key: u64) -> (r: Option<Vec<u8>>)
        ensures
            match r {
                Some(v) => kv_get(self@, key) == Some(v@),
                None => kv_get(self@, key) is None,
            },
    {
        let n = self.pairs.len();
        let mut k: usize = n;
        proof {
            lemma_pair_views_all(self.pairs@);
        }
        while k > 0
            invariant
                0 <= k <= n,
                n == self.pairs@.len(),
                kv_get(self@, key) == kv_get(pair_views(self.pairs@.subrange(0, k as int)), key),
            decreases k,
        {
            proof {
                lemma_pair_views_push(self.pairs@, k - 1);
            }
            let ghost pre = pair_views(self.pairs@.subrange(0, k as int));
            assert(pre.drop_last() =~= pair_views(self.pairs@.subrange(0, k - 1)));
            if self.pairs[k - 1].0 == key {
                let v = copy_range(&self.pairs[k - 1].1, 0, self.pairs[k - 1].1.len());
                assert(self.pairs@[k - 1].1@.subrange(0, self.pairs@[k - 1].1@.len() as int) =~= self.pairs@[k - 1].1@);
                return Some(v);
            }
            k = k - 1;
        }
        None
    }

    /// Set `key` to `value`; returns what it held before.
    pub fn insert(&mut self, key: u64, value: Vec<u8>) -> (r: Option<Vec<u8>>)
        ensures
            final(self)@ == kv_insert(old(self)@, key, value@),
            match r {
                Some(v) => kv_get(old(self)@, key) == Some(v@),
                None => kv_get(old(self)@, key) is None,
            },
    {
        proof {
            use_type_invariant(&*self);
        }
        let prev = self.get(key);
        let ghost old_s = self@;
        let ghost lt = |e: (u64, Seq<u8>)| e.0 < key;
        let ghost gt = |e: (u64, Seq<u8>)| e.0 > key;
        let mut out: Vec<(u64, Vec<u8>)> = Vec::new();
        let n = self.pairs.len();
        let mut k: usize = 0;
        proof {
            lemma_pair_views_all(self.pairs@);
            lemma_filter_push(Seq::<(u64, Seq<u8>)>::empty(), (0, Seq::empty()), lt);
            assert(pair_views(out@) =~= Seq::<(u64, Seq<u8>)>::empty());
        }
        while k < n
            invariant
                0 <= k <= n,
                n == self.pairs@.len(),
                old_s == pair_views(self.pairs@),
                sorted_keys(old_s),
                values_fit(old_s),
                lt == (|e: (u64, Seq<u8>)| e.0 < key),
                pair_views(out@) == pair_views(self.pairs@.subrange(0, k as int)).filter(lt),
                sorted_keys(pair_views(out@)),
                values_fit(pair_views(out@)),
                forall|i: int| 0 <= i < out@.len() ==> (#[trigger] out@[i]).0 < key,
                forall|i: int, j: int|
                    0 <= i < out@.len() && k <= j < n ==> (#[trigger] out@[i]).0 < (#[trigger] self.pairs@[j]).0,
            decreases n - k,
        {
            proof {
                lemma_pair_views_push(self.pairs@, k as int);
                lemma_filter_push(pair_views(self.pairs@.subrange(0, k as int)), (self.pairs@[k as int].0, self.pairs@[k as int].1@), lt);
            }
            if self.pairs[k].0 < key {
                let c = copy_range(&self.pairs[k].1, 0, self.pairs[k].1.len());
                assert(self.pairs@[k as int].1@.subrange(0, self.pairs@[k as int].1@.len() as int) =~= self.pairs@[k as int].1@);
                let ghost before = out@;
                out.push((self.pairs[k].0, c));
                proof {
                    assert(pair_views(out@) =~= pair_views(before).push((self.pairs@[k as int].0, self.pairs@[k as int].1@)));
                    assert(old_s[k as int] == (self.pairs@[k as int].0, self.pairs@[k as int].1@));
                    assert forall|i: int, j: int| k < j < n && 0 <= i < out@.len() implies (#[trigger] out@[i]).0 < (#[trigger] self.pairs@[j]).0 by {
                        assert(old_s[k as int].0 < old_s[j].0);
                    }
                }
            }
            k = k + 1;
        }
        proof {
            lemma_pair_views_all(self.pairs@);
        }
        let ghost head = pair_views(out@);
        let ghost v = value@;
        let vlen = value.len();
        out.push((key, value));
        proof {
            assert(pair_views(out@) =~= head.push((key, v)));
            lemma_filter_push(Seq::<(u64, Seq<u8>)>::empty(), (0, Seq::empty()), gt);
            assert(pair_views(out@) =~= pair_views(out@) + pair_views(self.pairs@.subrange(0, 0)).filter(gt));
        }
        let mut k: usize = 0;
        while k < n
            invariant
                0 <= k <= n,
                n == self.pairs@.len(),
                old_s == pair_views(self.pairs@),
                sorted_keys(old_s),
                values_fit(old_s),
                gt == (|e: (u64, Seq<u8>)| e.0 > key),
                pair_views(out@) == head.push((key, v)) + pair_views(self.pairs@.subrange(0, k as int)).filter(gt),
                sorted_keys(pair_views(out@)),
                values_fit(pair_views(out@)),
                forall|i: int, j: int|
                    0 <= i < out@.len() && k <= j < n && self.pairs@[j].0 > key ==> (#[trigger] out@[i]).0 < (#[trigger] self.pairs@[j]).0,
            decreases n - k,
        {
            proof {
                lemma_pair_views_push(self.pairs@, k as int);
                lemma_filter_push(pair_views(self.pairs@.subrange(0, k as int)), (self.pairs@[k as int].0, self.pairs@[k as int].1@), gt);
            }
            if self.pairs[k].0 > key {
                let c = copy_range(&self.pairs[k].1, 0, self.pairs[k].1.len());
                assert(self.pairs@[k as int].1@.subrange(0, self.pairs@[k as int].1@.len() as int) =~= self.pairs@[k as int].1@);
                let ghost before = out@;
                out.push((self.pairs[k].0, c));
                proof {
                    assert(pair_views(out@) =~= pair_views(before).push((self.pairs@[k as int].0, self.pairs@[k as int].1@)));
                    assert(old_s[k as int] == (self.pairs@[k as int].0, self.pairs@[k as int].1@));
                    assert forall|i: int, j: int| 0 <= i < out@.len() && k < j < n && self.pairs@[j].0 > key implies (#[trigger] out@[i]).0 < (#[trigger] self.pairs@[j]).0 by {
                        assert(old_s[k as int].0 < old_s[j].0);
                    }
                }
            }
            k = k + 1;
        }
        proof {
            lemma_pair_views_all(self.pairs@);
        }
        self.pairs = out;
        prev
    }

    /// Remove `key`; returns what it held before.
    pub fn remove(&mut self, key: u64) -> (r: Option<Vec<u8>>)
        ensures
            final(self)@ == kv_remove(old(self)@, key),
            match r {
                Some(v) => kv_get(old(self)@, key) == Some(v@),
                None => kv_get(old(self)@, key) is None,
            },
    {
        proof {
            use_type_invariant(&*self);
        }
        let prev = self.get(key);
        let ghost old_s = self@;
        let ghost ne = other_key(key);
        let mut out: Vec<(u64, Vec<u8>)> = Vec::new();
        let n = self.pairs.len();
        let mut k: usize = 0;
        proof {
            lemma_pair_views_all(self.pairs@);
            lemma_filter_push(Seq::<(u64, Seq<u8>)>::empty(), (0, Seq::empty()), ne);
            assert(pair_views(out@) =~= Seq::<(u64, Seq<u8>)>::empty());
        }
        while k < n
            invariant
                0 <= k <= n,
                n == self.pairs@.len(),
                old_s == pair_views(self.pairs@),
                sorted_keys(old_s),
                values_fit(old_s),
                ne == other_key(key),
                pair_views(out@) == pair_views(self.pairs@.subrange(0, k as int)).filter(ne),
                sorted_keys(pair_views(out@)),
                values_fit(pair_views(out@)),
                forall|i: int, j: int|
                    0 <= i < out@.len() && k <= j < n ==> (#[trigger] out@[i]).0 < (#[trigger] self.pairs@[j]).0,
            decreases n - k,
        {
            proof {
                lemma_pair_views_push(self.pairs@, k as int);
                lemma_filter_push(pair_views(self.pairs@.subrange(0, k as int)), (self.pairs@[k as int].0, self.pairs@[k as int].1@), ne);
            }
            if self.pairs[k].0 != key {
                let c = copy_range(&self.pairs[k].1, 0, self.pairs[k].1.len());
                assert(self.pairs@[k as int].1@.subrange(0, self.pairs@[k as int].1@.len() as int) =~= self.pairs@[k as int].1@);
                let ghost before = out@;
                out.push((self.pairs[k].0, c));
                proof {
                    assert(pair_views(out@) =~= pair_views(before).push((self.pairs@[k as int].0, self.pairs@[k as int].1@)));
                    assert(old_s[k as int] == (self.pairs@[k as int].0, self.pairs@[k as int].1@));
                    assert forall|i: int, j: int| k < j < n && 0 <= i < out@.len() implies (#[trigger] out@[i]).0 < (#[trigger] self.pairs@[j]).0 by {
                        assert(old_s[k as int].0 < old_s[j].0);
                    }
                }
            }
            k = k + 1;
        }
        proof {
            lemma_pair_views_all(self.pairs@);
        }
        self.pairs = out;
        prev
    }

    /// The snapshot of the store.
    pub fn snapshot(&self) -> (r: Vec<u8>)
        ensures
            r@ == encode_kv(self@),
            valid_state(self@),
    {
        proof {
            use_type_invariant(self);
        }
        let mut out: Vec<u8> = Vec::new();
        let n = self.pairs.len();
        let mut k: usize = 0;
        proof {
            lemma_pair_views_all(self.pairs@);
        }
        while k < n
            invariant
                0 <= k <= n,
                n == self.pairs@.len(),
                out@ == encode_kv(pair_views(self.pairs@.subrange(0, k as int))),
            decreases n - k,
        {
            let key = self.pairs[k].0;
            let v = &self.pairs[k].1;
            let ghost pre = out@;
            append_key(&mut out, key);
            append_key(&mut out, v.len() as u64);
            append_range(&mut out, v, 0, v.len());
            proof {
                assert(v@.subrange(0, v@.len() as int) =~= v@);
                lemma_pair_views_push(self.pairs@, k as int);
                lemma_encode_push(pair_views(self.pairs@.subrange(0, k as int)), key, v@);
                assert(out@ =~= pre + record(key, v@));
            }
            k = k + 1;
        }
        proof {
            lemma_pair_views_all(self.pairs@);
        }
        out
    }

    /// Replace the whole store with the pairs a snapshot holds. Refused, with
    /// the store unchanged, where the bytes are not whole records in strictly
    /// increasing key order.
    pub fn restore(&mut self, snap: &Vec<u8>) -> (r: Result<(), AppError>)
        ensures
            r is Ok <==> (decode_kv(snap@) matches Some(t) && sorted_keys(t)),
            r is Ok ==> decode_kv(snap@) == Some(final(self)@),
            r is Err ==> final(self)@ == old(self)@,
            valid_state(final(self)@),
    {
        proof {
            use_type_invariant(&*self);
        }
        let blen = snap.len();
        let mut out: Vec<(u64, Vec<u8>)> = Vec::new();
        let mut pos: usize = 0;
        proof {
            assert(snap@.subrange(0, blen as int) =~= snap@);
            assert(pair_views(out@) + Seq::<(u64, Seq<u8>)>::empty() =~= Seq::<(u64, Seq<u8>)>::empty());
            assert(pair_views(out@) =~= Seq::<(u64, Seq<u8>)>::empty());
            match decode_kv(snap@) {
                Some(t) => assert(pair_views(out@) + t =~= t),
                None => {},
            }
        }
        while pos < blen
            invariant
                blen == snap@.len(),
                pos <= blen,
                decode_kv(snap@) == prepend(pair_views(out@), decode_kv(snap@.subrange(pos as int, blen as int))),
                values_fit(pair_views(out@)),
                self@ == old(self)@,
                valid_state(self@),
            decreases blen - pos,
        {
            let rem = blen - pos;
            let ghost sub = snap@.subrange(pos as int, blen as int);
            if rem < 16 {
                proof {
                    assert(decode_kv(sub) is None);
                }
                return Err(AppError { reason: String::from_str("truncated snapshot record") });
            }
            let n = read_u64_at(snap, pos + 8);
            proof {
                assert(sub.subrange(8, 16) =~= snap@.subrange(pos + 8, pos + 16));
            }
            if n > (rem - 16) as u64 {
                return Err(AppError { reason: String::from_str("snapshot value overruns the bytes") });
            }
            let nu = n as usize;
            let key = read_u64_at(snap, pos);
            let v = copy_range(snap, pos + 16, pos + 16 + nu);
            let ghost pre = pair_views(out@);
            out.push((key, v));
            proof {
                assert(sub.subrange(0, 8) =~= snap@.subrange(pos as int, pos + 8));
                assert(sub.subrange(16, 16 + n as int) =~= v@);
                assert(sub.subrange(16 + n as int, sub.len() as int) =~= snap@.subrange(pos + 16 + nu, blen as int));
                assert(pair_views(out@) =~= pre.push((key, v@)));
                match decode_kv(snap@.subrange(pos + 16 + nu, blen as int)) {
                    Some(t) => {
                        assert(pre + (seq![(key, v@)] + t) =~= pre.push((key, v@)) + t);
                    },
                    None => {},
                }
                assert forall|i: int| 0 <= i < pair_views(out@).len() implies (#[trigger] pair_views(out@)[i]).1.len() <= u64::MAX by {
                    if i < pre.len() {
                        assert(pair_views(out@)[i] == pre[i]);
                    }
                }
            }
            pos = pos + 16 + nu;
        }
        proof {
            assert(snap@.subrange(blen as int, blen as int) =~= Seq::<u8>::empty());
            assert(pair_views(out@) + Seq::<(u64, Seq<u8>)>::empty() =~= pair_views(out@));
        }
        let mut j: usize = 1;
        while j < out.len()
            invariant
                1 <= j,
                forall|a: int, b: int| 0 <= a < b < j && b < out@.len() ==> #[trigger] out@[a].0 < #[trigger] out@[b].0,
                decode_kv(snap@) == Some(pair_views(out@)),
                self@ == old(self)@,
                valid_state(self@),
            decreases out.len() - j,
        {
            if out[j - 1].0 >= out[j].0 {
                proof {
                    let t = pair_views(out@);
                    assert(t[j - 1].0 == out@[j - 1].0 && t[j as int].0 == out@[j as int].0);
                    assert(!sorted_keys(t));
                }
                return Err(AppError { reason: String::from_str("snapshot keys out of order") });
            }
            proof {
                assert forall|a: int, b: int| 0 <= a < b < j + 1 && b < out@.len() implies #[trigger] out@[a].0 < #[trigger] out@[b].0 by {
                    if b == j && a < j - 1 {
                        assert(out@[a].0 < out@[j - 1].0);
                    }
                }
            }
            j = j + 1;
        }
        proof {
            let t = pair_views(out@);
            assert forall|a: int, b: int| 0 <= a < b < t.len() implies #[trigger] t[a].0 < #[trigger] t[b].0 by {
                assert(t[a].0 == out@[a].0 && t[b].0 == out@[b].0);
            }
        }
        self.pairs = out;
        proof {
            use_type_invariant(&*self);
        }
        Ok(())
    }

    /// Apply a write command; the reply is the value the key held before.
    /// Refused, with the store unchanged, where the bytes are no command.
    pub fn apply_command(&mut self, cmd: &Vec<u8>) -> (r: Result<Vec<u8>, AppError>)
        ensures
            r is Ok <==> parse_command(cmd@) is Some,
            r matches Ok(reply) ==> {
                let op = parse_command(cmd@)->Some_0;
                &&& final(self)@ == apply_op(old(self)@, op)
                &&& reply@ == encode_option(kv_get(old(self)@, op_key(op)))
            },
            r is Err ==> final(self)@ == old(self)@,
            valid_state(final(self)@),
    {
        proof {
            use_type_invariant(&*self);
        }
        let len = cmd.len();
        if len >= 9 && cmd[0] == 0 {
            let key = read_u64_at(cmd, 1);
            let v = copy_range(cmd, 9, len);
            let prev = self.insert(key, v);
            proof {
                use_type_invariant(&*self);
            }
            Ok(encode_value(&prev))
        } else if len == 9 && cmd[0] == 1 {
            let key = read_u64_at(cmd, 1);
            let prev = self.remove(key);
            proof {
                use_type_invariant(&*self);
            }
            Ok(encode_value(&prev))
        } else {
            Err(AppError { reason: String::from_str("malformed command") })
        }
    }

    /// Answer a read of the key that the eight bytes of `req` encode.
    pub fn read(&self, req: &Vec<u8>) -> (r: Result<Vec<u8>, AppError>)
        ensures
            r is Ok <==> req@.len() == KEY_LEN,
            r matches Ok(reply) ==> reply@ == encode_option(kv_get(self@, be_value(req@) as u64)),
    {
        if req.len() != KEY_LEN {
            return Err(AppError { reason: String::from_str("malformed query") });
        }
        let key = read_u64_at(req, 0);
        assert(req@.subrange(0, 8) =~= req@);
        Ok(encode_value(&self.get(key)))
    }
}

/// A snapshot's records followed by more pairs.
pub open spec fn prepend(p: KvState, d: Option<KvState>) -> Option<KvState> {
    match d {
        Some(t) => Some(p + t),
        None => None,
    }
}

/// Bytes that decode give those bytes back when the pairs are encoded again.
#[verifier::spinoff_prover]
#[verifier::rlimit(60)]
pub proof fn lemma_decode_encode(b: Seq<u8>)
    ensures
        decode_kv(b) matches Some(t) ==> encode_kv(t) == b,
    decreases b.len(),
{
    if b.len() >= 16 {
        let n = be_value(b.subrange(8, 16));
        if n <= b.len() - 16 {
            let tail = b.subrange(16 + n as int, b.len() as int);
            lemma_decode_encode(tail);
            if let Some(rest) = decode_kv(tail) {
                let k = be_value(b.subrange(0, 8)) as u64;
                let v = b.subrange(16, 16 + n as int);
                let t = seq![(k, v)] + rest;
                assert(decode_kv(b) == Some(t));
                assert(encode_kv(t) == record(k, v) + encode_kv(rest)) by {
                    assert(t.drop_first() =~= rest);
                    assert(t[0] == (k, v));
                }
                assert(record(k, v) == b.subrange(0, 16 + n as int)) by {
                    lemma_record_prefix(b, n);
                }
                assert(b =~= b.subrange(0, 16 + n as int) + tail);
            }
        }
    }
}

/// The first record of bytes that hold one is the record of its key and value.
proof fn lemma_record_prefix(b: Seq<u8>, n: nat)
    requires
        b.len() >= 16,
        n == be_value(b.subrange(8, 16)),
        n <= b.len() - 16,
    ensures
        record(be_value(b.subrange(0, 8)) as u64, b.subrange(16, 16 + n as int)) == b.subrange(
            0,
            16 + n as int,
        ),
{
    let k = be_value(b.subrange(0, 8));
    let v = b.subrange(16, 16 + n as int);
    lemma_be_value_bound(b.subrange(0, 8));
    lemma_be_value_bound(b.subrange(8, 16));
    lemma_pow256_8();
    key_of_value(b.subrange(0, 8), k as u64);
    key_of_value(b.subrange(8, 16), n as u64);
    assert(v.len() == n);
    assert(index_key(k as u64) + index_key(v.len() as u64) + v =~= b.subrange(0, 16 + n as int));
}

impl RaftApp for KvStateMachine {
    open spec fn state(&self) -> Seq<u8> {
        encode_kv(self@)
    }

    open spec fn is_snapshot(b: Seq<u8>) -> bool {
        decode_kv(b) matches Some(t) && sorted_keys(t)
    }

    open spec fn write_step(s: Seq<u8>, req: Seq<u8>) -> Option<(Seq<u8>, Seq<u8>)> {
        match decode_kv(s) {
            Some(t) => match parse_command(req) {
                Some(op) => Some((encode_kv(apply_op(t, op)), encode_option(kv_get(t, op_key(op))))),
                None => None,
            },
            None => None,
        }
    }

    open spec fn read_step(s: Seq<u8>, req: Seq<u8>) -> Option<Seq<u8>> {
        match decode_kv(s) {
            Some(t) => if req.len() == KEY_LEN {
                Some(encode_option(kv_get(t, be_value(req) as u64)))
            } else {
                None
            },
            None => None,
        }
    }

    fn handle_write(&mut self, req: &Vec<u8>) -> (r: Result<Vec<u8>, AppError>) {
        proof {
            use_type_invariant(&*self);
            lemma_restore_snapshot(self@);
        }
        self.apply_command(req)
    }

    fn handle_read(&self, req: &Vec<u8>) -> (r: Result<Vec<u8>, AppError>) {
        proof {
            use_type_invariant(self);
            lemma_restore_snapshot(self@);
        }
        self.read(req)
    }

    fn make_snapshot(&self) -> (r: Vec<u8>) {
        proof {
            use_type_invariant(self);
            lemma_restore_snapshot(self@);
        }
        self.snapshot()
    }

    fn handle_snapshot(&mut self, snap: &Vec<u8>) -> (r: Result<(), AppError>) {
        let r = self.restore(snap);
        proof {
            lemma_decode_encode(snap@);
        }
        r
    }
}

} // verus!
