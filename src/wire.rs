//! Frames of the peer protocol: a kind byte, the payload's length as eight
//! big-endian bytes, then the payload, which is the encoded consensus message.
use vstd::prelude::*;

use crate::log_key::{
    KEY_LEN, be_bytes, be_value, decode_index, encode_index, index_key, lemma_be_bytes_len,
    lemma_key_round_trip,
};

verus! {

/// Which consensus message a frame carries.
#[derive(Clone, Copy, Debug, PartialEq, Eq, Structural)]
pub enum RpcKind {
    AppendEntries,
    Vote,
    InstallSnapshot,
}

pub open spec fn kind_byte(k: RpcKind) -> u8 {
    match k {
        RpcKind::AppendEntries => 1,
        RpcKind::Vote => 2,
        RpcKind::InstallSnapshot => 3,
    }
}

/// Length of a frame's header.
pub const HEADER_LEN: usize = 9;

/// The frame that carries `payload` as a message of kind `k`.
pub open spec fn frame_of(k: RpcKind, payload: Seq<u8>) -> Seq<u8> {
    seq![kind_byte(k)] + index_key(payload.len() as u64) + payload
}

fn kind_of_byte(b: u8) -> (r: Option<RpcKind>)
    ensures
        r matches Some(k) ==> kind_byte(k) == b,
        r is None ==> forall|k: RpcKind| kind_byte(k) != b,
{
    if b == 1 {
        Some(RpcKind::AppendEntries)
    } else if b == 2 {
        Some(RpcKind::Vote)
    } else if b == 3 {
        Some(RpcKind::InstallSnapshot)
    } else {
        None
    }
}

/// The frame for `payload` as a message of kind `kind`.
pub fn encode_frame(kind: RpcKind, payload: &Vec<u8>) -> (r: Vec<u8>)
    ensures
        r@ == frame_of(kind, payload@),
{
    let mut r: Vec<u8> = Vec::new();
    r.push(
        match kind {
            RpcKind::AppendEntries => 1u8,
            RpcKind::Vote => 2u8,
            RpcKind::InstallSnapshot => 3u8,
        },
    );
    let len = encode_index(payload.len() as u64);
    let mut k: usize = 0;
    while k < len.len()
        invariant
            0 <= k <= len.len(),
            r@ == seq![kind_byte(kind)] + len@.subrange(0, k as int),
        decreases len.len() - k,
    {
        r.push(len[k]);
        k = k + 1;
        assert(r@ =~= seq![kind_byte(kind)] + len@.subrange(0, k as int));
    }
    let ghost head = r@;
    assert(len@.subrange(0, len@.len() as int) =~= len@);
    let mut k: usize = 0;
    while k < payload.len()
        invariant
            0 <= k <= payload.len(),
            r@ == head + payload@.subrange(0, k as int),
        decreases payload.len() - k,
    {
        r.push(payload[k]);
        k = k + 1;
        assert(r@ =~= head + payload@.subrange(0, k as int));
    }
    assert(payload@.subrange(0, payload@.len() as int) =~= payload@);
    r
}

/// The kind and payload that a whole frame carries; `None` where the bytes
/// are not one frame.
pub fn decode_frame(b: &Vec<u8>) -> (r: Option<(RpcKind, Vec<u8>)>)
    ensures
        r matches Some((k, p)) ==> b@ == frame_of(k, p@),
        forall|k: RpcKind, p: Seq<u8>|
            b@ == #[trigger] frame_of(k, p) ==> (r matches Some((k2, q)) && k2 == k && q@ == p),
{
    proof {
        assert forall|k: RpcKind, p: Seq<u8>| b@ == #[trigger] frame_of(k, p) implies b@.len()
            >= HEADER_LEN && b@[0] == kind_byte(k) && b@.subrange(1, 9) == index_key(
            p.len() as u64,
        ) && b@.subrange(9, b@.len() as int) == p && p.len() <= u64::MAX by {
            lemma_be_bytes_len((p.len() as u64) as nat, 8);
            assert(index_key(p.len() as u64).len() == 8);
            assert(b@.len() == 9 + p.len());
            assert(b@.len() == b.len());
            assert(b@[0] == kind_byte(k));
            assert(b@.subrange(1, 9) =~= index_key(p.len() as u64));
            assert(b@.subrange(9, b@.len() as int) =~= p);
        }
    }
    if b.len() < HEADER_LEN {
        return None;
    }
    let kind = match kind_of_byte(b[0]) {
        Some(k) => k,
        None => {
            return None;
        },
    };
    let mut header: Vec<u8> = Vec::new();
    let mut k: usize = 1;
    while k < HEADER_LEN
        invariant
            1 <= k <= HEADER_LEN,
            b@.len() >= HEADER_LEN,
            header@ == b@.subrange(1, k as int),
        decreases HEADER_LEN - k,
    {
        header.push(b[k]);
        k = k + 1;
        assert(header@ =~= b@.subrange(1, k as int));
    }
    let len = match decode_index(header.as_slice()) {
        Some(n) => n,
        None => {
            return None;
        },
    };
    let rest = (b.len() - HEADER_LEN) as u64;
    if len != rest {
        proof {
            assert forall|kk: RpcKind, p: Seq<u8>| b@ != #[trigger] frame_of(kk, p) by {
                if b@ == frame_of(kk, p) {
                    lemma_key_round_trip(p.len() as u64);
                }
            }
        }
        return None;
    }
    let mut payload: Vec<u8> = Vec::new();
    let mut k: usize = HEADER_LEN;
    while k < b.len()
        invariant
            HEADER_LEN <= k <= b.len(),
            payload@ == b@.subrange(HEADER_LEN as int, k as int),
        decreases b.len() - k,
    {
        payload.push(b[k]);
        k = k + 1;
        assert(payload@ =~= b@.subrange(HEADER_LEN as int, k as int));
    }
    proof {
        let p = payload@;
        assert(p.len() == rest);
        lemma_key_round_trip(len);
        key_of_value(header@, len);
        assert(b@ =~= frame_of(kind, p));
        assert forall|kk: RpcKind, q: Seq<u8>| b@ == #[trigger] frame_of(kk, q) implies kk == kind
            && q == p by {
            assert(b@.subrange(9, b@.len() as int) == q);
            assert(b@.subrange(9, b@.len() as int) =~= p);
            assert(kind_byte(kk) == kind_byte(kind));
        }
    }
    Some((kind, payload))
}

/// An eight-byte string is the key of the number it denotes.
pub proof fn key_of_value(s: Seq<u8>, n: u64)
    requires
        s.len() == KEY_LEN,
        be_value(s) == n,
    ensures
        s == index_key(n),
{
    lemma_be_bytes_of_value(s);
}

proof fn lemma_be_bytes_of_value(s: Seq<u8>)
    ensures
        be_bytes(be_value(s), s.len()) == s,
    decreases s.len(),
{
    if s.len() > 0 {
        let d = s.drop_last();
        lemma_be_bytes_of_value(d);
        let v = be_value(s);
        assert(v == be_value(d) * 256 + s.last() as nat);
        assert(v / 256 == be_value(d) && v % 256 == s.last() as nat) by (nonlinear_arith)
            requires
                v == be_value(d) * 256 + s.last() as nat,
                0 <= s.last() < 256,
        ;
        assert(be_bytes(v, s.len()) =~= s);
    } else {
        assert(be_bytes(be_value(s), 0) =~= s);
    }
}

} // verus!
