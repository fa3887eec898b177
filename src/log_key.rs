//! Keys of the log tree: a log index written as eight big-endian bytes, so
//! that the byte-wise order of keys is the numeric order of indices.
use vstd::prelude::*;

verus! {

/// Number of bytes in an encoded log index.
pub const KEY_LEN: usize = 8;

/// 256 to the power `k`.
pub open spec fn pow256(k: nat) -> nat
    decreases k,
{
    if k == 0 {
        1
    } else {
        256 * pow256((k - 1) as nat)
    }
}

/// The last `k` base-256 digits of `n`, most significant first.
pub open spec fn be_bytes(n: nat, k: nat) -> Seq<u8>
    decreases k,
{
    if k == 0 {
        Seq::empty()
    } else {
        be_bytes(n / 256, (k - 1) as nat).push((n % 256) as u8)
    }
}

/// The number that a byte string denotes when read most significant byte first.
pub open spec fn be_value(s: Seq<u8>) -> nat
    decreases s.len(),
{
    if s.len() == 0 {
        0
    } else {
        be_value(s.drop_last()) * 256 + s.last() as nat
    }
}

/// The key under which the log entry with index `i` is stored.
pub open spec fn index_key(i: u64) -> Seq<u8> {
    be_bytes(i as nat, KEY_LEN as nat)
}

/// Strict lexicographic order on byte strings, as an ordered store scans its keys.
pub open spec fn key_lt(a: Seq<u8>, b: Seq<u8>) -> bool
    decreases a.len(),
{
    if a.len() == 0 {
        b.len() > 0
    } else if b.len() == 0 {
        false
    } else if a[0] < b[0] {
        true
    } else if a[0] == b[0] {
        key_lt(a.drop_first(), b.drop_first())
    } else {
        false
    }
}

pub proof fn lemma_pow256_8()
    ensures
        pow256(8) == 0x1_0000_0000_0000_0000nat,
{
    reveal_with_fuel(pow256, 9);
}

proof fn lemma_pow256_pos(k: nat)
    ensures
        pow256(k) >= 1,
    decreases k,
{
    if k > 0 {
        lemma_pow256_pos((k - 1) as nat);
    }
}

pub proof fn lemma_be_bytes_len(n: nat, k: nat)
    ensures
        be_bytes(n, k).len() == k,
    decreases k,
{
    if k > 0 {
        lemma_be_bytes_len(n / 256, (k - 1) as nat);
    }
}

pub proof fn lemma_be_value_bound(s: Seq<u8>)
    ensures
        be_value(s) < pow256(s.len()),
    decreases s.len(),
{
    if s.len() > 0 {
        lemma_be_value_bound(s.drop_last());
        let v = be_value(s.drop_last());
        let p = pow256((s.len() - 1) as nat);
        assert(v + 1 <= p);
        assert((v + 1) * 256 <= p * 256) by (nonlinear_arith)
            requires
                v + 1 <= p,
        ;
    }
}

/// Reading back the last `k` digits of a number below `256^k` gives the number.
pub proof fn lemma_be_round_trip(n: nat, k: nat)
    requires
        n < pow256(k),
    ensures
        be_value(be_bytes(n, k)) == n,
    decreases k,
{
    if k > 0 {
        let p = pow256((k - 1) as nat);
        assert(n / 256 < p) by (nonlinear_arith)
            requires
                n < 256 * p,
        ;
        lemma_be_round_trip(n / 256, (k - 1) as nat);
        let s = be_bytes(n, k);
        assert(s.drop_last() =~= be_bytes(n / 256, (k - 1) as nat));
        assert(n == (n / 256) * 256 + n % 256) by (nonlinear_arith);
    }
}

/// Appending one byte to two strings of equal length orders them by the
/// strings first and by the byte second.
proof fn lemma_key_lt_push(s: Seq<u8>, t: Seq<u8>, x: u8, y: u8)
    requires
        s.len() == t.len(),
    ensures
        key_lt(s.push(x), t.push(y)) <==> (key_lt(s, t) || (s == t && x < y)),
    decreases s.len(),
{
    if s.len() == 0 {
        assert(s.push(x).drop_first() =~= Seq::<u8>::empty());
        assert(t.push(y).drop_first() =~= Seq::<u8>::empty());
        assert(s.push(x)[0] == x);
        assert(t.push(y)[0] == y);
        assert(s =~= t);
        assert(!key_lt(s, t));
        assert(!key_lt(s.push(x).drop_first(), t.push(y).drop_first()));
    } else {
        assert(s.push(x).drop_first() =~= s.drop_first().push(x));
        assert(t.push(y).drop_first() =~= t.drop_first().push(y));
        assert(s.push(x)[0] == s[0]);
        assert(t.push(y)[0] == t[0]);
        lemma_key_lt_push(s.drop_first(), t.drop_first(), x, y);
        if s[0] == t[0] && s.drop_first() == t.drop_first() {
            assert forall|i: int| 0 <= i < s.len() implies s[i] == t[i] by {
                if i > 0 {
                    assert(s[i] == s.drop_first()[i - 1]);
                    assert(t[i] == t.drop_first()[i - 1]);
                }
            }
            assert(s =~= t);
        }
        if s == t {
            assert(s.drop_first() == t.drop_first());
        }
    }
}

/// On numbers below `256^k`, the order of their `k`-byte encodings is the
/// order of the numbers.
proof fn lemma_be_order(a: nat, b: nat, k: nat)
    requires
        a < pow256(k),
        b < pow256(k),
    ensures
        a < b <==> key_lt(be_bytes(a, k), be_bytes(b, k)),
        a == b <==> be_bytes(a, k) == be_bytes(b, k),
    decreases k,
{
    if k == 0 {
        assert(a == 0 && b == 0);
    } else {
        let p = pow256((k - 1) as nat);
        assert(a / 256 < p) by (nonlinear_arith)
            requires
                a < 256 * p,
        ;
        assert(b / 256 < p) by (nonlinear_arith)
            requires
                b < 256 * p,
        ;
        lemma_be_order(a / 256, b / 256, (k - 1) as nat);
        lemma_be_bytes_len(a / 256, (k - 1) as nat);
        lemma_be_bytes_len(b / 256, (k - 1) as nat);
        lemma_key_lt_push(
            be_bytes(a / 256, (k - 1) as nat),
            be_bytes(b / 256, (k - 1) as nat),
            (a % 256) as u8,
            (b % 256) as u8,
        );
        assert(a == (a / 256) * 256 + a % 256) by (nonlinear_arith);
        assert(b == (b / 256) * 256 + b % 256) by (nonlinear_arith);
        assert(a < b <==> (a / 256 < b / 256 || (a / 256 == b / 256 && a % 256 < b % 256)))
            by (nonlinear_arith)
            requires
                a == (a / 256) * 256 + a % 256,
                b == (b / 256) * 256 + b % 256,
                0 <= a % 256 < 256,
                0 <= b % 256 < 256,
        ;
        let sa = be_bytes(a, k);
        let sb = be_bytes(b, k);
        assert(sa.drop_last() =~= be_bytes(a / 256, (k - 1) as nat));
        assert(sb.drop_last() =~= be_bytes(b / 256, (k - 1) as nat));
        assert(sa.last() == (a % 256) as u8);
        assert(sb.last() == (b % 256) as u8);
        if sa == sb {
            assert(sa.drop_last() == sb.drop_last());
            assert(a % 256 == b % 256);
        }
    }
}

/// Scanning the log tree in key order visits the entries in index order:
/// the byte-wise order of two keys is the numeric order of their indices,
/// and distinct indices have distinct keys.
pub proof fn lemma_key_order(a: u64, b: u64)
    ensures
        a < b <==> key_lt(index_key(a), index_key(b)),
        a == b <==> index_key(a) == index_key(b),
        index_key(a).len() == KEY_LEN,
{
    lemma_pow256_8();
    lemma_be_order(a as nat, b as nat, 8);
    lemma_be_bytes_len(a as nat, 8);
}

/// A key read back gives the index it was made from.
pub proof fn lemma_key_round_trip(i: u64)
    ensures
        be_value(index_key(i)) == i,
{
    lemma_pow256_8();
    lemma_be_round_trip(i as nat, 8);
}

fn be_encode(n: u64, k: usize) -> (r: Vec<u8>)
    ensures
        r@ == be_bytes(n as nat, k as nat),
    decreases k,
{
    if k == 0 {
        Vec::new()
    } else {
        let mut v = be_encode(n / 256, k - 1);
        v.push((n % 256) as u8);
        v
    }
}

/// The key of the log entry with index `i`.
pub fn encode_index(i: u64) -> (r: Vec<u8>)
    ensures
        r@ == index_key(i),
        r@.len() == KEY_LEN,
{
    proof {
        lemma_be_bytes_len(i as nat, 8);
    }
    be_encode(i, KEY_LEN)
}

/// The index that a key of the log tree stands for; `None` where the key does
/// not have the length of one.
pub fn decode_index(key: &[u8]) -> (r: Option<u64>)
    ensures
        key@.len() != KEY_LEN ==> r is None,
        key@.len() == KEY_LEN ==> r == Some(be_value(key@) as u64) && be_value(key@) <= u64::MAX,
{
    if key.len() != KEY_LEN {
        return None;
    }
    proof {
        lemma_pow256_8();
        lemma_be_value_bound(key@);
    }
    let mut acc: u64 = 0;
    let mut j: usize = 0;
    while j < KEY_LEN
        invariant
            key@.len() == KEY_LEN,
            0 <= j <= KEY_LEN,
            acc as nat == be_value(key@.subrange(0, j as int)),
            pow256(8) == 0x1_0000_0000_0000_0000nat,
        decreases KEY_LEN - j,
    {
        let ghost pre = key@.subrange(0, j as int);
        let ghost next = key@.subrange(0, j as int + 1);
        proof {
            assert(next.drop_last() =~= pre);
            lemma_be_value_bound(next);
            lemma_pow256_monotone(next.len(), 8);
        }
        acc = acc * 256 + key[j] as u64;
        j = j + 1;
    }
    assert(key@.subrange(0, 8) =~= key@);
    Some(acc)
}

proof fn lemma_pow256_monotone(a: nat, b: nat)
    requires
        a <= b,
    ensures
        pow256(a) <= pow256(b),
    decreases b,
{
    if a < b {
        lemma_pow256_monotone(a, (b - 1) as nat);
        lemma_pow256_pos((b - 1) as nat);
    }
}

} // verus!
