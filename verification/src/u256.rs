//! 256-bit unsigned integers: balances, gas, nonces and storage slots.
//!
//! A value is four 64-bit little-endian limbs; the contracts speak of
//! its mathematical value. Big-endian byte strings are the wire form
//! shared with the codec and the hash layer.

use vstd::prelude::*;
use vstd::arithmetic::mul::{lemma_mul_inequality, lemma_mul_upper_bound};

verus! {

/// Value of a big-endian byte string.
pub open spec fn be_val(s: Seq<u8>) -> nat
    decreases s.len(),
{
    if s.len() == 0 {
        0
    } else {
        (be_val(s.drop_last()) * 256 + s.last()) as nat
    }
}

/// 256 to the `n`-th power.
pub open spec fn pow256(n: nat) -> nat
    decreases n,
{
    if n == 0 {
        1nat
    } else {
        256 * pow256((n - 1) as nat)
    }
}

pub proof fn lemma_be_val_concat(a: Seq<u8>, b: Seq<u8>)
    ensures
        be_val(a + b) == be_val(a) * pow256(b.len()) + be_val(b),
    decreases b.len(),
{
    if b.len() == 0 {
        assert(a + b =~= a);
        assert(pow256(b.len()) == 1);
        assert(be_val(b) == 0);
    } else {
        lemma_be_val_concat(a, b.drop_last());
        assert((a + b).drop_last() =~= a + b.drop_last());
        let n = (b.len() - 1) as nat;
        assert(be_val(a + b) == (be_val(a) * pow256(n) + be_val(b.drop_last())) * 256 + b.last());
        assert((be_val(a) * pow256(n) + be_val(b.drop_last())) * 256
            == be_val(a) * pow256(n) * 256 + be_val(b.drop_last()) * 256) by (nonlinear_arith);
        assert(be_val(a) * pow256(n) * 256 == be_val(a) * (256 * pow256(n))) by (nonlinear_arith);
        assert(pow256(b.len()) == 256 * pow256(n));
        assert(be_val(a) * pow256(b.len()) == be_val(a) * (256 * pow256(n)));
        assert(be_val(b) == be_val(b.drop_last()) * 256 + b.last());
        assert(be_val(a + b) == be_val(a) * pow256(b.len()) + be_val(b));
    }
}

pub proof fn lemma_be_val_bound(s: Seq<u8>)
    ensures
        be_val(s) < pow256(s.len()),
    decreases s.len(),
{
    if s.len() > 0 {
        lemma_be_val_bound(s.drop_last());
        let n = (s.len() - 1) as nat;
        assert(be_val(s.drop_last()) * 256 <= (pow256(n) - 1) * 256) by {
            lemma_mul_inequality(be_val(s.drop_last()) as int, pow256(n) - 1, 256);
        }
    }
}

/// A byte string of zeros spells zero.
pub proof fn lemma_be_val_zeros(s: Seq<u8>)
    requires
        forall|i: int| 0 <= i < s.len() ==> s[i] == 0u8,
    ensures
        be_val(s) == 0,
    decreases s.len(),
{
    if s.len() > 0 {
        lemma_be_val_zeros(s.drop_last());
    }
}

/// The eight big-endian bytes of a 64-bit word.
pub fn u64_to_be8(x: u64) -> (r: Vec<u8>)
    ensures
        r@.len() == 8,
        be_val(r@) == x,
{
    let b0 = (x >> 56) as u8;
    let b1 = (x >> 48) as u8;
    let b2 = (x >> 40) as u8;
    let b3 = (x >> 32) as u8;
    let b4 = (x >> 24) as u8;
    let b5 = (x >> 16) as u8;
    let b6 = (x >> 8) as u8;
    let b7 = x as u8;
    let r: Vec<u8> = vec![b0, b1, b2, b3, b4, b5, b6, b7];
    proof {
        let s = r@;
        assert(s =~= seq![b0, b1, b2, b3, b4, b5, b6, b7]);
        assert(s.drop_last() =~= seq![b0, b1, b2, b3, b4, b5, b6]);
        assert(s.drop_last().drop_last() =~= seq![b0, b1, b2, b3, b4, b5]);
        assert(s.drop_last().drop_last().drop_last() =~= seq![b0, b1, b2, b3, b4]);
        assert(s.drop_last().drop_last().drop_last().drop_last() =~= seq![b0, b1, b2, b3]);
        assert(seq![b0, b1, b2, b3].drop_last() =~= seq![b0, b1, b2]);
        assert(seq![b0, b1, b2].drop_last() =~= seq![b0, b1]);
        assert(seq![b0, b1].drop_last() =~= seq![b0]);
        assert(seq![b0].drop_last() =~= Seq::<u8>::empty());
        assert(be_val(Seq::<u8>::empty()) == 0);
        assert(be_val(seq![b0]) == b0);
        assert(be_val(seq![b0, b1]) == b0 * 256 + b1);
        assert(be_val(seq![b0, b1, b2]) == (b0 * 256 + b1) * 256 + b2);
        assert(be_val(seq![b0, b1, b2, b3]) == ((b0 * 256 + b1) * 256 + b2) * 256 + b3);
        assert(be_val(s.drop_last().drop_last().drop_last())
            == (((b0 * 256 + b1) * 256 + b2) * 256 + b3) * 256 + b4);
        assert(be_val(s.drop_last().drop_last())
            == ((((b0 * 256 + b1) * 256 + b2) * 256 + b3) * 256 + b4) * 256 + b5);
        assert(be_val(s.drop_last())
            == (((((b0 * 256 + b1) * 256 + b2) * 256 + b3) * 256 + b4) * 256 + b5) * 256 + b6);
        assert(be_val(s) == ((((((((b0 * 256 + b1) * 256 + b2) * 256 + b3) * 256 + b4) * 256
            + b5) * 256 + b6) * 256) + b7));
        assert(x == ((((((((x >> 56) % 256) * 256 + (x >> 48) % 256) * 256 + (x >> 40) % 256)
            * 256 + (x >> 32) % 256) * 256 + (x >> 24) % 256) * 256 + (x >> 16) % 256) * 256
            + (x >> 8) % 256) * 256 + x % 256) by (bit_vector);
        assert(b0 == (x >> 56) % 256 && b1 == (x >> 48) % 256 && b2 == (x >> 40) % 256
            && b3 == (x >> 32) % 256 && b4 == (x >> 24) % 256 && b5 == (x >> 16) % 256
            && b6 == (x >> 8) % 256 && b7 == x % 256) by (bit_vector)
            requires
                b0 == (x >> 56) as u8 && b1 == (x >> 48) as u8 && b2 == (x >> 40) as u8
                    && b3 == (x >> 32) as u8 && b4 == (x >> 24) as u8 && b5 == (x >> 16) as u8
                    && b6 == (x >> 8) as u8 && b7 == x as u8,
        ;
    }
    r
}

/// An unsigned 256-bit integer, as four little-endian 64-bit limbs.
#[derive(Clone, Copy, Debug, PartialEq, Eq, Structural)]
pub struct U256 {
    pub w0: u64,
    pub w1: u64,
    pub w2: u64,
    pub w3: u64,
}

/// One more than the largest representable value.
pub open spec fn u256_bound() -> nat {
    0x10000000000000000000000000000000000000000000000000000000000000000nat
}

impl U256 {
    /// The mathematical value.
    pub open spec fn val(self) -> nat {
        (self.w0 + self.w1 * 0x10000000000000000nat
            + self.w2 * 0x100000000000000000000000000000000nat
            + self.w3 * 0x1000000000000000000000000000000000000000000000000nat) as nat
    }

    pub proof fn lemma_val_bound(self)
        ensures
            self.val() < u256_bound(),
    {
    }

    pub fn zero() -> (r: U256)
        ensures
            r.val() == 0,
    {
        U256 { w0: 0, w1: 0, w2: 0, w3: 0 }
    }

    pub fn from_u64(x: u64) -> (r: U256)
        ensures
            r.val() == x,
    {
        U256 { w0: x, w1: 0, w2: 0, w3: 0 }
    }

    pub fn is_zero(&self) -> (r: bool)
        ensures
            r == (self.val() == 0),
    {
        self.w0 == 0 && self.w1 == 0 && self.w2 == 0 && self.w3 == 0
    }

    /// Does the value fit in a 64-bit word?
    pub fn fits_u64(&self) -> (r: bool)
        ensures
            r == (self.val() < 0x10000000000000000),
    {
        self.w1 == 0 && self.w2 == 0 && self.w3 == 0
    }

    pub fn as_u64(&self) -> (r: u64)
        requires
            self.val() < 0x10000000000000000,
        ensures
            r == self.val(),
    {
        self.w0
    }

    pub fn lt(&self, o: &U256) -> (r: bool)
        ensures
            r == (self.val() < o.val()),
    {
        if self.w3 != o.w3 {
            self.w3 < o.w3
        } else if self.w2 != o.w2 {
            self.w2 < o.w2
        } else if self.w1 != o.w1 {
            self.w1 < o.w1
        } else {
            self.w0 < o.w0
        }
    }

    pub fn le(&self, o: &U256) -> (r: bool)
        ensures
            r == (self.val() <= o.val()),
    {
        !o.lt(self)
    }

    /// Sum, or `None` on wraparound.
    pub fn checked_add(&self, o: &U256) -> (r: Option<U256>)
        ensures
            r is Some ==> r->0.val() == self.val() + o.val(),
            r is None ==> self.val() + o.val() >= u256_bound(),
    {
        let (s0, c0) = add_limb(self.w0, o.w0, 0);
        let (s1, c1) = add_limb(self.w1, o.w1, c0);
        let (s2, c2) = add_limb(self.w2, o.w2, c1);
        let (s3, c3) = add_limb(self.w3, o.w3, c2);
        let r = U256 { w0: s0, w1: s1, w2: s2, w3: s3 };
        if c3 == 0 {
            Some(r)
        } else {
            None
        }
    }

    /// Difference, or `None` when the subtrahend is larger.
    pub fn checked_sub(&self, o: &U256) -> (r: Option<U256>)
        ensures
            r is Some <==> o.val() <= self.val(),
            r is Some ==> r->0.val() == self.val() - o.val(),
    {
        let (d0, b0) = sub_limb(self.w0, o.w0, 0);
        let (d1, b1) = sub_limb(self.w1, o.w1, b0);
        let (d2, b2) = sub_limb(self.w2, o.w2, b1);
        let (d3, b3) = sub_limb(self.w3, o.w3, b2);
        let r = U256 { w0: d0, w1: d1, w2: d2, w3: d3 };
        proof {
            r.lemma_val_bound();
            o.lemma_val_bound();
        }
        if b3 == 0 {
            Some(r)
        } else {
            None
        }
    }
}

/// One limb of an addition: digit and carry out.
fn add_limb(a: u64, b: u64, c: u64) -> (r: (u64, u64))
    requires
        c <= 1,
    ensures
        r.0 + r.1 * 0x10000000000000000nat == a + b + c,
        r.1 <= 1,
{
    let t: u128 = a as u128 + b as u128 + c as u128;
    let lo = t as u64;
    let hi = (t >> 64) as u64;
    proof {
        assert((t as u64) + ((t >> 64) as u64) * 0x10000000000000000 == t && (t >> 64) as u64
            <= 1) by (bit_vector)
            requires
                t < 0x20000000000000000,
        ;
    }
    (lo, hi)
}

/// One limb of a subtraction: digit and borrow out.
fn sub_limb(a: u64, b: u64, c: u64) -> (r: (u64, u64))
    requires
        c <= 1,
    ensures
        a + r.1 * 0x10000000000000000nat == r.0 + b + c,
        r.1 <= 1,
{
    let t: u128 = 0x10000000000000000u128 + a as u128 - b as u128 - c as u128;
    let lo = t as u64;
    let keep = (t >> 64) as u64;
    proof {
        assert((t as u64) + ((t >> 64) as u64) * 0x10000000000000000 == t && (t >> 64) as u64
            <= 1) by (bit_vector)
            requires
                t < 0x20000000000000000,
        ;
    }
    (lo, 1 - keep)
}


/// `pow256` turns addition of exponents into multiplication.
pub proof fn lemma_pow256_adds(m: nat, n: nat)
    ensures
        pow256(m + n) == pow256(m) * pow256(n),
    decreases n,
{
    if n == 0 {
        assert(pow256(m + 0) == pow256(m) * 1);
    } else {
        lemma_pow256_adds(m, (n - 1) as nat);
        assert(pow256(m + n) == 256 * pow256((m + n - 1) as nat));
        assert(256 * (pow256(m) * pow256((n - 1) as nat))
            == pow256(m) * (256 * pow256((n - 1) as nat))) by (nonlinear_arith);
    }
}

pub proof fn lemma_pow256_mono(m: nat, n: nat)
    ensures
        m <= n ==> pow256(m) <= pow256(n),
    decreases n,
{
    if n > 0 && m <= n {
        if m == n {
        } else {
            lemma_pow256_mono(m, (n - 1) as nat);
        }
    }
}

/// The word-aligned powers, as literals.
pub proof fn lemma_pow256_values()
    ensures
        pow256(8) == 0x10000000000000000,
        pow256(16) == 0x100000000000000000000000000000000,
        pow256(24) == 0x1000000000000000000000000000000000000000000000000,
        pow256(32) == u256_bound(),
{
    assert(pow256(0) == 1);
    assert(pow256(1) == 256);
    assert(pow256(2) == 0x10000);
    assert(pow256(3) == 0x1000000);
    assert(pow256(4) == 0x100000000);
    assert(pow256(5) == 0x10000000000);
    assert(pow256(6) == 0x1000000000000);
    assert(pow256(7) == 0x100000000000000);
    assert(pow256(8) == 0x10000000000000000);
    lemma_pow256_adds(8, 8);
    lemma_pow256_adds(16, 8);
    lemma_pow256_adds(24, 8);
}

impl U256 {
    /// The full 32-byte big-endian form.
    pub fn to_be_bytes(&self) -> (r: Vec<u8>)
        ensures
            r@.len() == 32,
            be_val(r@) == self.val(),
    {
        let mut r = u64_to_be8(self.w3);
        let ghost s3 = r@;
        let mut p = u64_to_be8(self.w2);
        let ghost s2 = p@;
        r.append(&mut p);
        let mut p = u64_to_be8(self.w1);
        let ghost s1 = p@;
        r.append(&mut p);
        let mut p = u64_to_be8(self.w0);
        let ghost s0 = p@;
        r.append(&mut p);
        proof {
            lemma_pow256_values();
            assert(r@ =~= ((s3 + s2) + s1) + s0);
            lemma_be_val_concat(s3, s2);
            lemma_be_val_concat(s3 + s2, s1);
            lemma_be_val_concat((s3 + s2) + s1, s0);
            assert(be_val(s3 + s2) == self.w3 * 0x10000000000000000nat + self.w2);
            assert(be_val((s3 + s2) + s1)
                == (self.w3 * 0x10000000000000000nat + self.w2) * 0x10000000000000000nat
                    + self.w1);
            assert((self.w3 * 0x10000000000000000nat + self.w2) * 0x10000000000000000nat
                == self.w3 * 0x100000000000000000000000000000000nat
                    + self.w2 * 0x10000000000000000nat) by (nonlinear_arith);
            assert(((s3 + s2) + s1).len() == 24);
            let h = be_val((s3 + s2) + s1);
            assert(be_val(r@) == h * 0x10000000000000000nat + self.w0);
            assert((self.w3 * 0x100000000000000000000000000000000nat
                + self.w2 * 0x10000000000000000nat + self.w1) * 0x10000000000000000nat
                == self.w3 * 0x1000000000000000000000000000000000000000000000000nat
                    + self.w2 * 0x100000000000000000000000000000000nat
                    + self.w1 * 0x10000000000000000nat) by (nonlinear_arith);
        }
        r
    }
}

/// The 64-bit word at byte offset `off` of a big-endian buffer.
fn be8_at(b: &Vec<u8>, off: usize) -> (r: u64)
    requires
        off + 8 <= b@.len(),
    ensures
        r == be_val(b@.subrange(off as int, off as int + 8)),
{
    let n = b.len();
    let b0 = b[off];
    let b1 = b[off + 1];
    let b2 = b[off + 2];
    let b3 = b[off + 3];
    let b4 = b[off + 4];
    let b5 = b[off + 5];
    let b6 = b[off + 6];
    let b7 = b[off + 7];
    let r = ((b0 as u64) << 56) | ((b1 as u64) << 48) | ((b2 as u64) << 40)
        | ((b3 as u64) << 32) | ((b4 as u64) << 24) | ((b5 as u64) << 16)
        | ((b6 as u64) << 8) | (b7 as u64);
    proof {
        let s = b@.subrange(off as int, off as int + 8);
        assert(s =~= seq![b0, b1, b2, b3, b4, b5, b6, b7]);
        assert(s.drop_last() =~= seq![b0, b1, b2, b3, b4, b5, b6]);
        assert(s.drop_last().drop_last() =~= seq![b0, b1, b2, b3, b4, b5]);
        assert(s.drop_last().drop_last().drop_last() =~= seq![b0, b1, b2, b3, b4]);
        assert(s.drop_last().drop_last().drop_last().drop_last() =~= seq![b0, b1, b2, b3]);
        assert(seq![b0, b1, b2, b3].drop_last() =~= seq![b0, b1, b2]);
        assert(seq![b0, b1, b2].drop_last() =~= seq![b0, b1]);
        assert(seq![b0, b1].drop_last() =~= seq![b0]);
        assert(seq![b0].drop_last() =~= Seq::<u8>::empty());
        assert(be_val(Seq::<u8>::empty()) == 0);
        assert(be_val(seq![b0]) == b0);
        assert(be_val(seq![b0, b1]) == b0 * 256 + b1);
        assert(be_val(seq![b0, b1, b2]) == (b0 * 256 + b1) * 256 + b2);
        assert(be_val(seq![b0, b1, b2, b3]) == ((b0 * 256 + b1) * 256 + b2) * 256 + b3);
        assert(be_val(s.drop_last().drop_last().drop_last())
            == (((b0 * 256 + b1) * 256 + b2) * 256 + b3) * 256 + b4);
        assert(be_val(s.drop_last().drop_last())
            == ((((b0 * 256 + b1) * 256 + b2) * 256 + b3) * 256 + b4) * 256 + b5);
        assert(be_val(s.drop_last())
            == (((((b0 * 256 + b1) * 256 + b2) * 256 + b3) * 256 + b4) * 256 + b5) * 256 + b6);
        assert(be_val(s) == ((((((((b0 * 256 + b1) * 256 + b2) * 256 + b3) * 256 + b4) * 256
            + b5) * 256 + b6) * 256) + b7));
        assert((((b0 as u64) << 56) | ((b1 as u64) << 48) | ((b2 as u64) << 40)
            | ((b3 as u64) << 32) | ((b4 as u64) << 24) | ((b5 as u64) << 16)
            | ((b6 as u64) << 8) | (b7 as u64))
            == ((((((((b0 * 256 + b1) * 256 + b2) * 256 + b3) * 256 + b4) * 256
                + b5) * 256 + b6) * 256) + b7)) by (bit_vector);
    }
    r
}

impl U256 {
    /// The value of a big-endian byte string of at most 32 bytes.
    #[verifier::rlimit(100)]
    #[verifier::spinoff_prover]
    pub fn from_be_bytes(b: &[u8]) -> (r: U256)
        requires
            b@.len() <= 32,
        ensures
            r.val() == be_val(b@),
    {
        let n = b.len();
        let mut p: Vec<u8> = Vec::new();
        let mut i: usize = 0;
        while i < 32 - n
            invariant
                n == b@.len() <= 32,
                i <= 32 - n,
                p@.len() == i,
                forall|k: int| 0 <= k < i ==> p@[k] == 0u8,
            decreases 32 - n - i,
        {
            p.push(0);
            i = i + 1;
        }
        let ghost z = p@;
        proof {
            assert(forall|k: int| 0 <= k < z.len() ==> z[k] == 0u8);
        }
        let mut j: usize = 0;
        while j < n
            invariant
                n == b@.len() <= 32,
                z.len() == 32 - n,
                j <= n,
                p@ == z + b@.take(j as int),
            decreases n - j,
        {
            p.push(b[j]);
            proof {
                assert(z + b@.take(j + 1) =~= (z + b@.take(j as int)).push(b@[j as int]));
            }
            j = j + 1;
        }
        proof {
            assert(b@.take(n as int) =~= b@);
            assert(p@.len() == 32);
        }
        let w3 = be8_at(&p, 0);
        let w2 = be8_at(&p, 8);
        let w1 = be8_at(&p, 16);
        let w0 = be8_at(&p, 24);
        let r = U256 { w0, w1, w2, w3 };
        proof {
            lemma_pow256_values();
            let s3 = p@.subrange(0, 8);
            let s2 = p@.subrange(8, 16);
            let s1 = p@.subrange(16, 24);
            let s0 = p@.subrange(24, 32);
            assert(p@ =~= ((s3 + s2) + s1) + s0);
            lemma_be_val_concat(s3, s2);
            lemma_be_val_concat(s3 + s2, s1);
            lemma_be_val_concat((s3 + s2) + s1, s0);
            assert(be_val(s3 + s2) == w3 * 0x10000000000000000nat + w2);
            assert((w3 * 0x10000000000000000nat + w2) * 0x10000000000000000nat
                == w3 * 0x100000000000000000000000000000000nat
                    + w2 * 0x10000000000000000nat) by (nonlinear_arith);
            assert((w3 * 0x100000000000000000000000000000000nat
                + w2 * 0x10000000000000000nat + w1) * 0x10000000000000000nat
                == w3 * 0x1000000000000000000000000000000000000000000000000nat
                    + w2 * 0x100000000000000000000000000000000nat
                    + w1 * 0x10000000000000000nat) by (nonlinear_arith);
            let h24 = be_val((s3 + s2) + s1);
            assert(h24 == w3 * 0x100000000000000000000000000000000nat
                + w2 * 0x10000000000000000nat + w1);
            assert(be_val(p@) == h24 * 0x10000000000000000nat + w0);
            assert((w3 * 0x100000000000000000000000000000000nat
                + w2 * 0x10000000000000000nat + w1) * 0x10000000000000000nat
                == w3 * 0x1000000000000000000000000000000000000000000000000nat
                    + w2 * 0x100000000000000000000000000000000nat
                    + w1 * 0x10000000000000000nat) by (nonlinear_arith);
            lemma_be_val_concat(z, b@);
            lemma_be_val_zeros(z);
            assert(p@ == z + b@);
            assert(be_val(z + b@) == be_val(z) * pow256(b@.len()) + be_val(b@));
            assert(be_val(z) * pow256(b@.len()) == 0) by (nonlinear_arith)
                requires
                    be_val(z) == 0,
            ;
            assert(be_val(p@) == be_val(b@));
            assert(r.val() == be_val(p@));
        }
        r
    }

    /// The minimal big-endian form: no leading zero, empty for zero.
    pub fn to_min_be(&self) -> (r: Vec<u8>)
        ensures
            be_val(r@) == self.val(),
            r@.len() <= 32,
            r@.len() > 0 ==> r@[0] != 0,
    {
        let b = self.to_be_bytes();
        let mut i: usize = 0;
        while i < 32 && b[i] == 0
            invariant
                b@.len() == 32,
                i <= 32,
                forall|k: int| 0 <= k < i ==> b@[k] == 0u8,
            decreases 32 - i,
        {
            i = i + 1;
        }
        let mut r: Vec<u8> = Vec::new();
        let mut j: usize = i;
        while j < 32
            invariant
                b@.len() == 32,
                i <= j <= 32,
                r@ == b@.subrange(i as int, j as int),
            decreases 32 - j,
        {
            r.push(b[j]);
            proof {
                assert(b@.subrange(i as int, j + 1)
                    =~= b@.subrange(i as int, j as int).push(b@[j as int]));
            }
            j = j + 1;
        }
        proof {
            let z = b@.subrange(0, i as int);
            assert(b@ =~= z + r@);
            lemma_be_val_concat(z, r@);
            lemma_be_val_zeros(z);
        }
        r
    }
}

/// Equal values in equal-length big-endian strings force equal strings.
pub proof fn lemma_be_val_inj(s: Seq<u8>, t: Seq<u8>)
    requires
        s.len() == t.len(),
        be_val(s) == be_val(t),
    ensures
        s == t,
    decreases s.len(),
{
    if s.len() == 0 {
        assert(s =~= t);
    } else {
        vstd::arithmetic::div_mod::lemma_fundamental_div_mod_converse(
            be_val(s) as int, 256, be_val(s.drop_last()) as int, s.last() as int);
        vstd::arithmetic::div_mod::lemma_fundamental_div_mod_converse(
            be_val(t) as int, 256, be_val(t.drop_last()) as int, t.last() as int);
        lemma_be_val_inj(s.drop_last(), t.drop_last());
        assert(s =~= s.drop_last().push(s.last()));
        assert(t =~= t.drop_last().push(t.last()));
    }
}

/// A minimal big-endian string is at least `pow256` of its length less one.
pub proof fn lemma_be_val_min_lower(s: Seq<u8>)
    requires
        s.len() > 0,
        s[0] != 0,
    ensures
        be_val(s) >= pow256((s.len() - 1) as nat),
{
    let rest = s.skip(1);
    assert(s =~= seq![s[0]] + rest);
    lemma_be_val_concat(seq![s[0]], rest);
    assert(be_val(seq![s[0]]) == s[0]) by {
        assert(seq![s[0]].drop_last() =~= Seq::<u8>::empty());
        assert(be_val(Seq::<u8>::empty()) == 0);
    }
    lemma_mul_inequality(1, s[0] as int, pow256(rest.len()) as int);
}

/// Two minimal big-endian strings with one value are the same string.
pub proof fn lemma_min_be_unique(s: Seq<u8>, t: Seq<u8>)
    requires
        be_val(s) == be_val(t),
        s.len() == 0 || s[0] != 0,
        t.len() == 0 || t[0] != 0,
    ensures
        s == t,
{
    if s.len() < t.len() {
        lemma_be_val_bound(s);
        lemma_be_val_min_lower(t);
        lemma_pow256_mono(s.len(), (t.len() - 1) as nat);
        assert(false);
    } else if t.len() < s.len() {
        lemma_be_val_bound(t);
        lemma_be_val_min_lower(s);
        lemma_pow256_mono(t.len(), (s.len() - 1) as nat);
        assert(false);
    } else {
        lemma_be_val_inj(s, t);
    }
}

/// One multiply-accumulate limb: `z + a * b + c` as digit and carry.
fn mac(z: u64, a: u64, b: u64, c: u64) -> (r: (u64, u64))
    ensures
        r.0 + r.1 * 0x10000000000000000nat == z + a * b + c,
{
    proof {
        lemma_mul_upper_bound(a as int, 0xffffffffffffffff, b as int, 0xffffffffffffffff);
    }
    let t: u128 = z as u128 + (a as u128) * (b as u128) + c as u128;
    let lo = t as u64;
    let hi = (t >> 64) as u64;
    proof {
        assert(t as u64 + ((t >> 64) as u64) * 0x10000000000000000 == t) by (bit_vector);
    }
    (lo, hi)
}

/// One row of the long multiplication: adds `a` times `o` into four
/// limbs, returning the new limbs and the outgoing fifth limb.
fn mul_row(z0: u64, z1: u64, z2: u64, z3: u64, a: u64, o: &U256) -> (r: (u64, u64, u64, u64, u64))
    ensures
        r.0 + r.1 * 0x10000000000000000nat
            + r.2 * 0x100000000000000000000000000000000nat
            + r.3 * 0x1000000000000000000000000000000000000000000000000nat
            + r.4 * 0x10000000000000000000000000000000000000000000000000000000000000000nat
            == z0 + z1 * 0x10000000000000000nat
                + z2 * 0x100000000000000000000000000000000nat
                + z3 * 0x1000000000000000000000000000000000000000000000000nat
                + a * o.val(),
{
    let (b0, b1, b2, b3) = (o.w0, o.w1, o.w2, o.w3);
    let ghost bv = o.val();
    let (e0, c0) = mac(z0, a, b0, 0);
    let (e1, c1) = mac(z1, a, b1, c0);
    let (e2, c2) = mac(z2, a, b2, c1);
    let (e3, c3) = mac(z3, a, b3, c2);
    proof {
        assert(a * bv == a * b0 + (a * b1) * 0x10000000000000000nat
            + (a * b2) * 0x100000000000000000000000000000000nat
            + (a * b3) * 0x1000000000000000000000000000000000000000000000000nat)
            by (nonlinear_arith)
            requires
                bv == b0 + b1 * 0x10000000000000000nat
                    + b2 * 0x100000000000000000000000000000000nat
                    + b3 * 0x1000000000000000000000000000000000000000000000000nat,
        ;
    }
    (e0, e1, e2, e3, c3)
}

impl U256 {
    /// Product, or `None` on wraparound.
    #[verifier::rlimit(100)]
    #[verifier::spinoff_prover]
    pub fn checked_mul(&self, o: &U256) -> (r: Option<U256>)
        ensures
            r is Some ==> r->0.val() == self.val() * o.val(),
            r is None ==> self.val() * o.val() >= u256_bound(),
    {
        let (a0, a1, a2, a3) = (self.w0, self.w1, self.w2, self.w3);
        let ghost av = self.val();
        let ghost bv = o.val();

        let (e0, t1, t2, t3, t4) = mul_row(0, 0, 0, 0, a0, o);
        let (e1, u2, u3, u4, u5) = mul_row(t1, t2, t3, t4, a1, o);
        proof {
            assert(e0 + e1 * 0x10000000000000000nat
                + u2 * 0x100000000000000000000000000000000nat
                + u3 * 0x1000000000000000000000000000000000000000000000000nat
                + u4 * 0x10000000000000000000000000000000000000000000000000000000000000000nat
                + u5 * 0x100000000000000000000000000000000000000000000000000000000000000000000000000000000nat
                == a0 * bv + (a1 * bv) * 0x10000000000000000nat);
        }
        let (e2, v3, v4, v5, v6) = mul_row(u2, u3, u4, u5, a2, o);
        proof {
            assert(e0 + e1 * 0x10000000000000000nat
                + e2 * 0x100000000000000000000000000000000nat
                + v3 * 0x1000000000000000000000000000000000000000000000000nat
                + v4 * 0x10000000000000000000000000000000000000000000000000000000000000000nat
                + v5 * 0x100000000000000000000000000000000000000000000000000000000000000000000000000000000nat
                + v6 * 0x1000000000000000000000000000000000000000000000000000000000000000000000000000000000000000000000000nat
                == a0 * bv + (a1 * bv) * 0x10000000000000000nat
                    + (a2 * bv) * 0x100000000000000000000000000000000nat);
        }
        let (e3, e4, e5, e6, e7) = mul_row(v3, v4, v5, v6, a3, o);
        proof {
            assert(av * bv == a0 * bv + (a1 * bv) * 0x10000000000000000nat
                + (a2 * bv) * 0x100000000000000000000000000000000nat
                + (a3 * bv) * 0x1000000000000000000000000000000000000000000000000nat)
                by (nonlinear_arith)
                requires
                    av == a0 + a1 * 0x10000000000000000nat
                        + a2 * 0x100000000000000000000000000000000nat
                        + a3 * 0x1000000000000000000000000000000000000000000000000nat,
            ;
            assert(e0 + e1 * 0x10000000000000000nat
                + e2 * 0x100000000000000000000000000000000nat
                + e3 * 0x1000000000000000000000000000000000000000000000000nat
                + e4 * 0x10000000000000000000000000000000000000000000000000000000000000000nat
                + e5 * 0x100000000000000000000000000000000000000000000000000000000000000000000000000000000nat
                + e6 * 0x1000000000000000000000000000000000000000000000000000000000000000000000000000000000000000000000000nat
                + e7 * 0x10000000000000000000000000000000000000000000000000000000000000000000000000000000000000000000000000000000000000000nat
                == av * bv);
        }
        if e4 == 0 && e5 == 0 && e6 == 0 && e7 == 0 {
            Some(U256 { w0: e0, w1: e1, w2: e2, w3: e3 })
        } else {
            None
        }
    }
}


/// The unique `U256` with a given value below the bound.
pub open spec fn u256_of(n: nat) -> U256 {
    U256 {
        w0: (n % 0x10000000000000000) as u64,
        w1: ((n / 0x10000000000000000nat) % 0x10000000000000000) as u64,
        w2: ((n / 0x100000000000000000000000000000000nat) % 0x10000000000000000) as u64,
        w3: ((n / 0x1000000000000000000000000000000000000000000000000nat) % 0x10000000000000000) as u64,
    }
}

/// `u256_of` inverts `val`.
pub proof fn lemma_u256_of_val(x: U256)
    ensures
        u256_of(x.val()) == x,
{
    let k: int = 0x10000000000000000;
    let n = x.val() as int;
    vstd::arithmetic::div_mod::lemma_fundamental_div_mod_converse(
        n, k, x.w1 + x.w2 * k + x.w3 * (k * k), x.w0 as int);
    assert(n / k == x.w1 + x.w2 * k + x.w3 * (k * k) && n % k == x.w0);
    let n1 = x.w1 + x.w2 * k + x.w3 * (k * k);
    vstd::arithmetic::div_mod::lemma_fundamental_div_mod_converse(
        n1, k, x.w2 + x.w3 * k, x.w1 as int);
    let n2 = x.w2 + x.w3 * k;
    vstd::arithmetic::div_mod::lemma_fundamental_div_mod_converse(
        n2, k, x.w3 as int, x.w2 as int);
    vstd::arithmetic::div_mod::lemma_fundamental_div_mod_converse(
        x.w3 as int, k, 0, x.w3 as int);
    assert(n / (k * k) == n2) by {
        vstd::arithmetic::div_mod::lemma_div_denominator(n, k, k);
        assert((n / k) / k == n2);
    }
    assert(n / (k * k * k) == x.w3 as int) by {
        vstd::arithmetic::div_mod::lemma_div_denominator(n, k * k, k);
        assert(n / (k * k) / k == x.w3 as int);
        assert(k * k * k == (k * k) * k) by (nonlinear_arith);
    }
}

/// Equal values force equal limbs.
pub proof fn lemma_u256_val_inj(a: U256, b: U256)
    requires
        a.val() == b.val(),
    ensures
        a == b,
{
    lemma_u256_of_val(a);
    lemma_u256_of_val(b);
}

} // verus!
