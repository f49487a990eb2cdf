//! Recursive length prefix, the chain's canonical serialization.
//!
//! Encoders build the byte form of strings and lists; a spec-level
//! parser fixes what decoding means, and the inversion lemmas show
//! that parsing an encoding yields the encoded value back — the heart
//! of the round-trip laws.

use vstd::prelude::*;
use crate::error::Error;
use crate::u256::{be_val, pow256, U256, lemma_be_val_bound, lemma_be_val_concat, lemma_min_be_unique};

verus! {

/// Minimal big-endian digits of a number: no leading zero, empty for zero.
pub open spec fn nat_min_be(n: nat) -> Seq<u8>
    decreases n,
{
    if n == 0 {
        Seq::empty()
    } else {
        nat_min_be(n / 256).push((n % 256) as u8)
    }
}

pub proof fn lemma_nat_min_be_val(n: nat)
    ensures
        be_val(nat_min_be(n)) == n,
        nat_min_be(n).len() > 0 ==> nat_min_be(n)[0] != 0,
    decreases n,
{
    if n > 0 {
        lemma_nat_min_be_val(n / 256);
        let s = nat_min_be(n);
        assert(s.drop_last() =~= nat_min_be(n / 256));
        if nat_min_be(n / 256).len() > 0 {
            assert(s[0] == nat_min_be(n / 256)[0]);
        }
    }
}

/// A minimal big-endian string is the minimal form of its value.
pub proof fn lemma_min_be_canon(s: Seq<u8>)
    requires
        s.len() == 0 || s[0] != 0,
    ensures
        nat_min_be(be_val(s)) == s,
{
    lemma_nat_min_be_val(be_val(s));
    lemma_min_be_unique(nat_min_be(be_val(s)), s);
}

pub proof fn lemma_nat_min_be_len(n: nat, k: nat)
    requires
        n < pow256(k),
    ensures
        nat_min_be(n).len() <= k,
    decreases k,
{
    if n > 0 {
        if k == 0 {
        } else {
            assert(n / 256 < pow256((k - 1) as nat)) by {
                assert(pow256(k) == 256 * pow256((k - 1) as nat));
                assert(n / 256 < pow256((k - 1) as nat) || n >= 256 * pow256((k - 1) as nat))
                    by (nonlinear_arith);
            }
            lemma_nat_min_be_len(n / 256, (k - 1) as nat);
        }
    }
}

/// The encoding of a byte string.
pub open spec fn enc_bytes(b: Seq<u8>) -> Seq<u8> {
    if b.len() == 1 && b[0] < 0x80 {
        b
    } else if b.len() < 56 {
        seq![(0x80 + b.len()) as u8] + b
    } else {
        seq![(0xb7 + nat_min_be(b.len()).len()) as u8] + nat_min_be(b.len()) + b
    }
}

/// The list wrapper around an already encoded payload.
pub open spec fn enc_list(p: Seq<u8>) -> Seq<u8> {
    if p.len() < 56 {
        seq![(0xc0 + p.len()) as u8] + p
    } else {
        seq![(0xf7 + nat_min_be(p.len()).len()) as u8] + nat_min_be(p.len()) + p
    }
}

/// What decoding a string at position `i` yields: the payload and the
/// position just past the item.
pub open spec fn parse_bytes_sp(s: Seq<u8>, i: nat) -> Option<(Seq<u8>, nat)> {
    if i >= s.len() {
        None
    } else {
        let h = s[i as int];
        if h < 0x80 {
            Some((seq![h], (i + 1) as nat))
        } else if h <= 0xb7 {
            let n = (h - 0x80) as nat;
            if i + 1 + n <= s.len() {
                Some((s.subrange((i + 1) as int, (i + 1 + n) as int), (i + 1 + n) as nat))
            } else {
                None
            }
        } else if h <= 0xbf {
            let ll = (h - 0xb7) as nat;
            if ll <= 8 && i + 1 + ll <= s.len() {
                let n = be_val(s.subrange((i + 1) as int, (i + 1 + ll) as int));
                if i + 1 + ll + n <= s.len() {
                    Some((s.subrange((i + 1 + ll) as int, (i + 1 + ll + n) as int), (i + 1 + ll + n) as nat))
                } else {
                    None
                }
            } else {
                None
            }
        } else {
            None
        }
    }
}

/// What decoding a list header at position `i` yields: the payload
/// bounds, start and end.
pub open spec fn parse_list_sp(s: Seq<u8>, i: nat) -> Option<(nat, nat)> {
    if i >= s.len() {
        None
    } else {
        let h = s[i as int];
        if h < 0xc0 {
            None
        } else if h <= 0xf7 {
            let n = (h - 0xc0) as nat;
            if i + 1 + n <= s.len() {
                Some(((i + 1) as nat, (i + 1 + n) as nat))
            } else {
                None
            }
        } else {
            let ll = (h - 0xf7) as nat;
            if ll <= 8 && i + 1 + ll <= s.len() {
                let n = be_val(s.subrange((i + 1) as int, (i + 1 + ll) as int));
                if i + 1 + ll + n <= s.len() {
                    Some(((i + 1 + ll) as nat, (i + 1 + ll + n) as nat))
                } else {
                    None
                }
            } else {
                None
            }
        }
    }
}

/// Append a slice to a vector.
pub fn push_all(out: &mut Vec<u8>, b: &[u8])
    ensures
        final(out)@ == old(out)@ + b@,
{
    let mut i: usize = 0;
    while i < b.len()
        invariant
            i <= b@.len(),
            out@ == old(out)@ + b@.take(i as int),
        decreases b@.len() - i,
    {
        out.push(b[i]);
        proof {
            assert(old(out)@ + b@.take(i + 1) =~= (old(out)@ + b@.take(i as int)).push(b@[i as int]));
        }
        i = i + 1;
    }
    proof {
        assert(b@.take(b@.len() as int) =~= b@);
    }
}

/// Append the encoding of a byte string.
pub fn append_bytes(out: &mut Vec<u8>, b: &[u8])
    ensures
        final(out)@ == old(out)@ + enc_bytes(b@),
{
    let n = b.len();
    if n == 1 && b[0] < 0x80 {
        out.push(b[0]);
        proof {
            assert(enc_bytes(b@) =~= b@);
            assert(out@ =~= old(out)@ + b@);
        }
    } else if n < 56 {
        out.push(0x80 + n as u8);
        push_all(out, b);
        proof {
            assert(enc_bytes(b@) =~= seq![(0x80 + b@.len()) as u8] + b@);
            assert(out@ =~= old(out)@ + (seq![(0x80 + b@.len()) as u8] + b@));
        }
    } else {
        let lb = U256::from_u64(n as u64).to_min_be();
        proof {
            lemma_min_be_canon(lb@);
            if lb@.len() > 8 {
                crate::u256::lemma_be_val_min_lower(lb@);
                crate::u256::lemma_pow256_mono(8, (lb@.len() - 1) as nat);
                crate::u256::lemma_pow256_values();
            }
        }
        out.push(0xb7 + lb.len() as u8);
        push_all(out, lb.as_slice());
        push_all(out, b);
        proof {
            assert(enc_bytes(b@) =~= seq![(0xb7 + nat_min_be(b@.len()).len()) as u8]
                + nat_min_be(b@.len()) + b@);
            assert(out@ =~= old(out)@ + (seq![(0xb7 + nat_min_be(b@.len()).len()) as u8]
                + nat_min_be(b@.len()) + b@));
        }
    }
}

/// Wrap an encoded payload as a list.
pub fn wrap_list(payload: &[u8]) -> (r: Vec<u8>)
    ensures
        r@ == enc_list(payload@),
{
    let mut out: Vec<u8> = Vec::new();
    let n = payload.len();
    if n < 56 {
        out.push(0xc0 + n as u8);
        push_all(&mut out, payload);
        proof {
            assert(enc_list(payload@) =~= seq![(0xc0 + payload@.len()) as u8] + payload@);
            assert(out@ =~= seq![(0xc0 + payload@.len()) as u8] + payload@);
        }
    } else {
        let lb = U256::from_u64(n as u64).to_min_be();
        proof {
            lemma_min_be_canon(lb@);
            if lb@.len() > 8 {
                crate::u256::lemma_be_val_min_lower(lb@);
                crate::u256::lemma_pow256_mono(8, (lb@.len() - 1) as nat);
                crate::u256::lemma_pow256_values();
            }
        }
        out.push(0xf7 + lb.len() as u8);
        push_all(&mut out, lb.as_slice());
        push_all(&mut out, payload);
        proof {
            assert(enc_list(payload@) =~= seq![(0xf7 + nat_min_be(payload@.len()).len()) as u8]
                + nat_min_be(payload@.len()) + payload@);
            assert(out@ =~= seq![(0xf7 + nat_min_be(payload@.len()).len()) as u8]
                + nat_min_be(payload@.len()) + payload@);
        }
    }
    out
}

/// Decode a string item.
pub fn parse_bytes(s: &[u8], i: usize) -> (r: Result<(Vec<u8>, usize), Error>)
    ensures
        r is Ok <==> parse_bytes_sp(s@, i as nat) is Some,
        r is Ok ==> (r->Ok_0.0@, r->Ok_0.1 as nat) == parse_bytes_sp(s@, i as nat)->0,
        r is Err ==> r->Err_0 == Error::RlpError,
{
    if i >= s.len() {
        return Err(Error::RlpError);
    }
    let h = s[i];
    if h < 0x80 {
        let v: Vec<u8> = vec![h];
        proof {
            assert(v@ =~= seq![s@[i as int]]);
        }
        Ok((v, i + 1))
    } else if h <= 0xb7 {
        let n = (h - 0x80) as usize;
        if s.len() - i - 1 < n {
            return Err(Error::RlpError);
        }
        let v = copy_range(s, i + 1, n);
        Ok((v, i + 1 + n))
    } else if h <= 0xbf {
        let ll = (h - 0xb7) as usize;
        if ll > 8 || s.len() - i - 1 < ll {
            return Err(Error::RlpError);
        }
        let lb = copy_range(s, i + 1, ll);
        let n64 = crate::u256::U256::from_be_bytes(lb.as_slice());
        proof {
            lemma_be_val_bound(lb@);
            crate::u256::lemma_pow256_mono(lb@.len(), 8);
            crate::u256::lemma_pow256_values();
        }
        let n = n64.as_u64();
        if n > usize::MAX as u64 || s.len() - i - 1 - ll < n as usize {
            return Err(Error::RlpError);
        }
        let n = n as usize;
        let v = copy_range(s, i + 1 + ll, n);
        Ok((v, i + 1 + ll + n))
    } else {
        Err(Error::RlpError)
    }
}

/// Decode a list header: payload start and end.
pub fn parse_list(s: &[u8], i: usize) -> (r: Result<(usize, usize), Error>)
    ensures
        r is Ok <==> parse_list_sp(s@, i as nat) is Some,
        r is Ok ==> (r->Ok_0.0 as nat, r->Ok_0.1 as nat) == parse_list_sp(s@, i as nat)->0,
        r is Err ==> r->Err_0 == Error::RlpError,
{
    if i >= s.len() {
        return Err(Error::RlpError);
    }
    let h = s[i];
    if h < 0xc0 {
        Err(Error::RlpError)
    } else if h <= 0xf7 {
        let n = (h - 0xc0) as usize;
        if s.len() - i - 1 < n {
            return Err(Error::RlpError);
        }
        Ok((i + 1, i + 1 + n))
    } else {
        let ll = (h - 0xf7) as usize;
        if ll > 8 || s.len() - i - 1 < ll {
            return Err(Error::RlpError);
        }
        let lb = copy_range(s, i + 1, ll);
        let n64 = crate::u256::U256::from_be_bytes(lb.as_slice());
        proof {
            lemma_be_val_bound(lb@);
            crate::u256::lemma_pow256_mono(lb@.len(), 8);
            crate::u256::lemma_pow256_values();
        }
        let n = n64.as_u64();
        if n > usize::MAX as u64 || s.len() - i - 1 - ll < n as usize {
            return Err(Error::RlpError);
        }
        let n = n as usize;
        Ok((i + 1 + ll, i + 1 + ll + n))
    }
}

/// Copy `n` bytes starting at `i`.
pub fn copy_range(s: &[u8], i: usize, n: usize) -> (r: Vec<u8>)
    requires
        i + n <= s@.len(),
    ensures
        r@ == s@.subrange(i as int, i as int + n),
{
    let end = s.len();
    let mut r: Vec<u8> = Vec::new();
    let mut j: usize = 0;
    while j < n
        invariant
            end == s@.len(),
            i + n <= s@.len(),
            j <= n,
            r@ == s@.subrange(i as int, i as int + j),
        decreases n - j,
    {
        r.push(s[i + j]);
        proof {
            assert(s@.subrange(i as int, i as int + j + 1)
                =~= s@.subrange(i as int, i as int + j).push(s@[i + j]));
        }
        j = j + 1;
    }
    r
}

/// Parsing at a position where an encoded string begins yields that
/// string and stops right after it.
pub proof fn lemma_parse_bytes_inv(s: Seq<u8>, i: nat, b: Seq<u8>)
    requires
        i + enc_bytes(b).len() <= s.len(),
        s.subrange(i as int, (i + enc_bytes(b).len()) as int) == enc_bytes(b),
        b.len() < 0x10000000000000000,
    ensures
        parse_bytes_sp(s, i) == Some((b, (i + enc_bytes(b).len()) as nat)),
{
    let e = enc_bytes(b);
    let ss = s.subrange(i as int, (i + e.len()) as int);
    assert(forall|k: int| 0 <= k < e.len() ==> s[i + k] == #[trigger] e[k]) by {
        assert(forall|k: int| 0 <= k < e.len() ==> #[trigger] e[k] == ss[k]);
        assert(forall|k: int| 0 <= k < e.len() ==> #[trigger] ss[k] == s[i + k]);
    }
    if b.len() == 1 && b[0] < 0x80 {
        assert(e[0] == b[0]);
        assert(s[i as int + 0] == e[0]);
        assert(seq![s[i as int]] =~= b);
    } else if b.len() < 56 {
        assert(e[0] == (0x80 + b.len()) as u8);
        assert(s[i as int + 0] == e[0]);
        assert(forall|k: int| 0 <= k < b.len() ==> #[trigger] b[k] == s[i as int + 1 + k]) by {
            assert(forall|k: int| 0 <= k < b.len() ==> #[trigger] b[k] == e[1 + k]);
        }
        assert(s.subrange((i + 1) as int, (i + 1 + b.len()) as int) =~= b);
    } else {
        let lb = nat_min_be(b.len());
        lemma_nat_min_be_val(b.len());
        crate::u256::lemma_pow256_values();
        lemma_nat_min_be_len(b.len(), 8);
        assert(lb.len() >= 1);
        assert(e[0] == (0xb7 + lb.len()) as u8);
        assert(s[i as int + 0] == e[0]);
        assert(0xb7 + lb.len() <= 0xbf);
        assert(forall|k: int| 0 <= k < lb.len() ==> #[trigger] lb[k] == s[i as int + 1 + k]) by {
            assert(forall|k: int| 0 <= k < lb.len() ==> #[trigger] lb[k] == e[1 + k]);
        }
        assert(s.subrange((i + 1) as int, (i + 1 + lb.len()) as int) =~= lb);
        assert(be_val(s.subrange((i + 1) as int, (i + 1 + lb.len()) as int)) == b.len());
        assert(forall|k: int| 0 <= k < b.len() ==> #[trigger] b[k] == s[i as int + 1 + lb.len() as int + k]) by {
            assert(forall|k: int| 0 <= k < b.len() ==> #[trigger] b[k] == e[1 + lb.len() as int + k]);
        }
        assert(s.subrange((i + 1 + lb.len()) as int, (i + 1 + lb.len() + b.len()) as int) =~= b);
    }
}

/// Parsing at a position where an encoded list begins yields exactly
/// its payload bounds.
pub proof fn lemma_parse_list_inv(s: Seq<u8>, i: nat, p: Seq<u8>)
    requires
        i + enc_list(p).len() <= s.len(),
        s.subrange(i as int, (i + enc_list(p).len()) as int) == enc_list(p),
        p.len() < 0x10000000000000000,
    ensures
        parse_list_sp(s, i) == Some(
            ((i + enc_list(p).len() - p.len()) as nat, (i + enc_list(p).len()) as nat),
        ),
        s.subrange(
            i + enc_list(p).len() - p.len(),
            (i + enc_list(p).len()) as int,
        ) == p,
{
    let e = enc_list(p);
    let ss = s.subrange(i as int, (i + e.len()) as int);
    assert(forall|k: int| 0 <= k < e.len() ==> s[i + k] == #[trigger] e[k]) by {
        assert(forall|k: int| 0 <= k < e.len() ==> #[trigger] e[k] == ss[k]);
        assert(forall|k: int| 0 <= k < e.len() ==> #[trigger] ss[k] == s[i + k]);
    }
    if p.len() < 56 {
        assert(e[0] == (0xc0 + p.len()) as u8);
        assert(s[i as int + 0] == e[0]);
        assert(forall|k: int| 0 <= k < p.len() ==> #[trigger] p[k] == s[i as int + 1 + k]) by {
            assert(forall|k: int| 0 <= k < p.len() ==> #[trigger] p[k] == e[1 + k]);
        }
        assert(s.subrange((i + 1) as int, (i + 1 + p.len()) as int) =~= p);
    } else {
        let lb = nat_min_be(p.len());
        lemma_nat_min_be_val(p.len());
        crate::u256::lemma_pow256_values();
        lemma_nat_min_be_len(p.len(), 8);
        assert(lb.len() >= 1);
        assert(e[0] == (0xf7 + lb.len()) as u8);
        assert(s[i as int + 0] == e[0]);
        assert(forall|k: int| 0 <= k < lb.len() ==> #[trigger] lb[k] == s[i as int + 1 + k]) by {
            assert(forall|k: int| 0 <= k < lb.len() ==> #[trigger] lb[k] == e[1 + k]);
        }
        assert(s.subrange((i + 1) as int, (i + 1 + lb.len()) as int) =~= lb);
        assert(be_val(s.subrange((i + 1) as int, (i + 1 + lb.len()) as int)) == p.len());
        assert(forall|k: int| 0 <= k < p.len() ==> #[trigger] p[k] == s[i as int + 1 + lb.len() as int + k]) by {
            assert(forall|k: int| 0 <= k < p.len() ==> #[trigger] p[k] == e[1 + lb.len() as int + k]);
        }
        assert(s.subrange((i + 1 + lb.len()) as int, (i + 1 + lb.len() + p.len()) as int) =~= p);
    }
}


/// Peel one encoded string off the front of a region of `s`: it
/// parses to exactly that string, and the rest of the region follows.
pub proof fn lemma_field_at(s: Seq<u8>, pos: nat, b: Seq<u8>, tail: Seq<u8>)
    requires
        pos + enc_bytes(b).len() + tail.len() <= s.len(),
        s.subrange(pos as int, (pos + enc_bytes(b).len() + tail.len()) as int)
            == enc_bytes(b) + tail,
        b.len() < 0x10000000000000000,
    ensures
        parse_bytes_sp(s, pos) == Some((b, (pos + enc_bytes(b).len()) as nat)),
        s.subrange(
            (pos + enc_bytes(b).len()) as int,
            (pos + enc_bytes(b).len() + tail.len()) as int,
        ) == tail,
{
    let e = enc_bytes(b);
    let whole = s.subrange(pos as int, (pos + e.len() + tail.len()) as int);
    assert(forall|k: int| 0 <= k < e.len() + tail.len()
        ==> s[pos + k] == #[trigger] (e + tail)[k]) by {
        assert(forall|k: int| 0 <= k < e.len() + tail.len()
            ==> #[trigger] (e + tail)[k] == whole[k]);
        assert(forall|k: int| 0 <= k < e.len() + tail.len()
            ==> #[trigger] whole[k] == s[pos + k]);
    }
    assert forall|k: int| 0 <= k < e.len() implies s[pos + k] == #[trigger] e[k] by {
        assert((e + tail)[k] == e[k]);
        assert(s[pos + k] == (e + tail)[k]);
    }
    assert forall|k: int| 0 <= k < tail.len()
        implies s[pos + e.len() + k] == #[trigger] tail[k] by {
        assert((e + tail)[e.len() + k] == tail[k]);
        assert(s[pos + (e.len() + k)] == (e + tail)[e.len() + k]);
    }
    assert(s.subrange(pos as int, (pos + e.len()) as int) =~= e);
    lemma_parse_bytes_inv(s, pos, b);
    assert(s.subrange(
        (pos + e.len()) as int,
        (pos + e.len() + tail.len()) as int,
    ) =~= tail);
}


/// Reassociate a nine-part concatenation.
pub proof fn lemma_assoc9(
    x1: Seq<u8>, x2: Seq<u8>, x3: Seq<u8>, x4: Seq<u8>, x5: Seq<u8>, x6: Seq<u8>,
    x7: Seq<u8>, x8: Seq<u8>, x9: Seq<u8>,
)
    ensures
        ({
            let g2 = x1 + x2;
            let g3 = g2 + x3;
            let g4 = g3 + x4;
            let g5 = g4 + x5;
            let g6 = g5 + x6;
            let g7 = g6 + x7;
            let g8 = g7 + x8;
            g8 + x9
        }) == ({
            let t8 = x8 + x9;
            let t7 = x7 + t8;
            let t6 = x6 + t7;
            let t5 = x5 + t6;
            let t4 = x4 + t5;
            let t3 = x3 + t4;
            let t2 = x2 + t3;
            x1 + t2
        }),
{
    let g2 = x1 + x2;
    let g3 = g2 + x3;
    let g4 = g3 + x4;
    let g5 = g4 + x5;
    let g6 = g5 + x6;
    let g7 = g6 + x7;
    let g8 = g7 + x8;
    let t8 = x8 + x9;
    let t7 = x7 + t8;
    let t6 = x6 + t7;
    let t5 = x5 + t6;
    let t4 = x4 + t5;
    let t3 = x3 + t4;
    let t2 = x2 + t3;
    vstd::seq_lib::lemma_concat_associative(g8, x9, Seq::empty());
    assert(g8 + x9 + Seq::<u8>::empty() =~= g8 + x9);
    vstd::seq_lib::lemma_concat_associative(g7, x8, x9);
    vstd::seq_lib::lemma_concat_associative(g6, x7, t8);
    vstd::seq_lib::lemma_concat_associative(g5, x6, t7);
    vstd::seq_lib::lemma_concat_associative(g4, x5, t6);
    vstd::seq_lib::lemma_concat_associative(g3, x4, t5);
    vstd::seq_lib::lemma_concat_associative(g2, x3, t4);
    vstd::seq_lib::lemma_concat_associative(x1, x2, t3);
}

/// Reassociate a six-part concatenation.
pub proof fn lemma_assoc6(
    x1: Seq<u8>, x2: Seq<u8>, x3: Seq<u8>, x4: Seq<u8>, x5: Seq<u8>, x6: Seq<u8>,
)
    ensures
        ({
            let g2 = x1 + x2;
            let g3 = g2 + x3;
            let g4 = g3 + x4;
            let g5 = g4 + x5;
            g5 + x6
        }) == ({
            let t5 = x5 + x6;
            let t4 = x4 + t5;
            let t3 = x3 + t4;
            let t2 = x2 + t3;
            x1 + t2
        }),
{
    let g2 = x1 + x2;
    let g3 = g2 + x3;
    let g4 = g3 + x4;
    let t5 = x5 + x6;
    let t4 = x4 + t5;
    let t3 = x3 + t4;
    vstd::seq_lib::lemma_concat_associative(g4, x5, x6);
    vstd::seq_lib::lemma_concat_associative(g3, x4, t5);
    vstd::seq_lib::lemma_concat_associative(g2, x3, t4);
    vstd::seq_lib::lemma_concat_associative(x1, x2, t3);
}



/// An encoded string is its payload plus at most nine header bytes.
pub proof fn lemma_enc_bytes_len(b: Seq<u8>)
    requires
        b.len() < 0x10000000000000000,
    ensures
        enc_bytes(b).len() <= 9 + b.len(),
        enc_bytes(b).len() >= 1,
{
    if b.len() == 1 && b[0] < 0x80 {
    } else if b.len() < 56 {
    } else {
        crate::u256::lemma_pow256_values();
        lemma_nat_min_be_len(b.len(), 8);
    }
}

/// An encoded list is its payload plus at most nine header bytes.
pub proof fn lemma_enc_list_len(p: Seq<u8>)
    requires
        p.len() < 0x10000000000000000,
    ensures
        enc_list(p).len() <= 9 + p.len(),
        enc_list(p).len() >= 1,
{
    if p.len() < 56 {
    } else {
        crate::u256::lemma_pow256_values();
        lemma_nat_min_be_len(p.len(), 8);
    }
}


/// Peel three encoded strings off the front of a region.
pub proof fn lemma_fields3_at(s: Seq<u8>, pos: nat, ba: Seq<u8>, bb: Seq<u8>, bc: Seq<u8>, tail: Seq<u8>)
    requires
        ({
            let whole = enc_bytes(ba) + (enc_bytes(bb) + (enc_bytes(bc) + tail));
            &&& pos + whole.len() <= s.len()
            &&& s.subrange(pos as int, (pos + whole.len()) as int) == whole
        }),
        ba.len() < 0x10000000000000000,
        bb.len() < 0x10000000000000000,
        bc.len() < 0x10000000000000000,
    ensures
        ({
            let ia = pos + enc_bytes(ba).len();
            let ib = ia + enc_bytes(bb).len();
            let ic = ib + enc_bytes(bc).len();
            &&& parse_bytes_sp(s, pos) == Some((ba, ia as nat))
            &&& parse_bytes_sp(s, ia as nat) == Some((bb, ib as nat))
            &&& parse_bytes_sp(s, ib as nat) == Some((bc, ic as nat))
            &&& ic + tail.len() <= s.len()
            &&& s.subrange(ic as int, (ic + tail.len()) as int) == tail
        }),
{
    lemma_field_at(s, pos, ba, enc_bytes(bb) + (enc_bytes(bc) + tail));
    let ia = pos + enc_bytes(ba).len();
    lemma_field_at(s, ia, bb, enc_bytes(bc) + tail);
    let ib = ia + enc_bytes(bb).len();
    lemma_field_at(s, ib, bc, tail);
}

} // verus!
