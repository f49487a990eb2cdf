//! Hashing and signatures: the two primitives the chain trusts.
//!
//! Keccak-256 and the secp256k1 operations are outside calls; their
//! results are named, and everything built on top — transaction
//! hashes, block hashes, sender addresses, signing — is verified
//! against those names.

use vstd::prelude::*;
use sha3::Digest;
use crate::types::{Transaction, TransactionV, tx_rlp_sp, tx_signing_rlp_sp, header_rlp_sp, Header, wf_tx};

verus! {

/// The Keccak-256 digest of a byte string.
pub uninterp spec fn keccak_of(data: Seq<u8>) -> Seq<u8>;

/// The order of the secp256k1 group: the number of usable keys plus
/// one.
pub open spec fn secp_group_order() -> nat {
    0xfffffffffffffffffffffffffffffffebaaedce6af48a03bbfd25e8cd0364141nat
}

/// Is a 32-byte string a usable secp256k1 secret key? Exactly the
/// nonzero values below the group order.
pub open spec fn sec_key_ok(key: Seq<u8>) -> bool {
    0 < crate::u256::be_val(key) < secp_group_order()
}

/// The uncompressed public key of a secret key, 65 bytes with a
/// leading marker byte.
pub uninterp spec fn pubkey_of(key: Seq<u8>) -> Seq<u8>;

/// The recoverable RFC6979 signature of a 32-byte digest: one
/// recovery byte followed by the 64 compact signature bytes.
pub uninterp spec fn ecdsa_sig_of(msg: Seq<u8>, key: Seq<u8>) -> Seq<u8>;

/// The public key a compact signature recovers to, if any.
pub uninterp spec fn recover_of(msg: Seq<u8>, sig: Seq<u8>, rid: nat) -> Option<Seq<u8>>;

/// Relies on `sha3::Keccak256::digest`: a 32-byte digest that depends
/// on the input bytes alone.
#[verifier::external_body]
pub fn keccak(data: &[u8]) -> (r: Vec<u8>)
    ensures
        r@ == keccak_of(data@),
        r@.len() == 32,
{
    sha3::Keccak256::digest(data).to_vec()
}

/// Relies on `secp256k1::PublicKey::from_secret_key` and
/// `serialize_uncompressed`: the 65-byte public key of a valid secret
/// key, a function of the key alone; `SecretKey::from_byte_array`
/// rejects exactly the zero and the over-order keys.
#[verifier::external_body]
pub fn secp_pubkey(secret: &[u8]) -> (r: Option<Vec<u8>>)
    requires
        secret@.len() == 32,
    ensures
        r is Some <==> sec_key_ok(secret@),
        r is Some ==> r->0@ == pubkey_of(secret@) && r->0@.len() == 65,
{
    let arr: [u8; 32] = secret.try_into().ok()?;
    let sk = secp256k1::SecretKey::from_byte_array(arr).ok()?;
    let pk = secp256k1::PublicKey::from_secret_key(&sk);
    Some(pk.serialize_uncompressed().to_vec())
}

/// Relies on `RecoverableSignature::sign_ecdsa_recoverable`: the
/// deterministic RFC6979 signature of a digest, returned as the
/// recovery byte followed by the 64 compact bytes.
#[verifier::external_body]
pub fn secp_sign(msg32: &[u8], secret: &[u8]) -> (r: Option<Vec<u8>>)
    requires
        msg32@.len() == 32,
        secret@.len() == 32,
    ensures
        r is Some <==> sec_key_ok(secret@),
        r is Some ==> r->0@ == ecdsa_sig_of(msg32@, secret@) && r->0@.len() == 65
            && r->0@[0] < 4,
{
    let m: [u8; 32] = msg32.try_into().ok()?;
    let arr: [u8; 32] = secret.try_into().ok()?;
    let sk = secp256k1::SecretKey::from_byte_array(arr).ok()?;
    let msg = secp256k1::Message::from_digest(m);
    let sig = secp256k1::ecdsa::RecoverableSignature::sign_ecdsa_recoverable(msg, &sk);
    let (rid, compact) = sig.serialize_compact();
    let mut out = vec![rid.to_u8()];
    out.extend_from_slice(&compact);
    Some(out)
}

/// Relies on `RecoverableSignature::recover_ecdsa`: the public key a
/// compact signature recovers to, a function of digest, signature and
/// recovery id alone; it fails exactly when no key can be recovered.
#[verifier::external_body]
pub fn secp_recover(msg32: &[u8], sig64: &[u8], rid: u8) -> (r: Option<Vec<u8>>)
    requires
        msg32@.len() == 32,
        sig64@.len() == 64,
        rid < 4,
    ensures
        r is Some <==> recover_of(msg32@, sig64@, rid as nat) is Some,
        r is Some ==> Some(r->0@) == recover_of(msg32@, sig64@, rid as nat)
            && r->0@.len() == 65,
{
    let m: [u8; 32] = msg32.try_into().ok()?;
    let recid = secp256k1::ecdsa::RecoveryId::try_from(rid as i32).ok()?;
    let sig = secp256k1::ecdsa::RecoverableSignature::from_compact(sig64, recid).ok()?;
    let msg = secp256k1::Message::from_digest(m);
    let pk = sig.recover_ecdsa(msg).ok()?;
    Some(pk.serialize_uncompressed().to_vec())
}

/// The address of an uncompressed public key: the last 20 bytes of
/// the Keccak-256 of its 64 coordinate bytes.
pub open spec fn address_of_pub(p: Seq<u8>) -> Seq<u8> {
    keccak_of(p.skip(1)).skip(12)
}

/// The address belonging to a secret key.
pub open spec fn address_of_secret_sp(key: Seq<u8>) -> Seq<u8> {
    address_of_pub(pubkey_of(key))
}

/// Derive the 20-byte address of a secret key.
pub fn address_of_secret(secret: &[u8]) -> (r: Option<Vec<u8>>)
    requires
        secret@.len() == 32,
    ensures
        r is Some <==> sec_key_ok(secret@),
        r is Some ==> r->0@ == address_of_secret_sp(secret@) && r->0@.len() == 20,
{
    let p = match secp_pubkey(secret) {
        Some(p) => p,
        None => {
            return None;
        },
    };
    let body = crate::rlp::copy_range(p.as_slice(), 1, 64);
    proof {
        assert(body@ =~= p@.skip(1));
    }
    let h = keccak(body.as_slice());
    let a = crate::rlp::copy_range(h.as_slice(), 12, 20);
    proof {
        assert(a@ =~= h@.skip(12));
    }
    Some(a)
}

/// The transaction hash: Keccak-256 of the canonical serialization.
pub open spec fn tx_hash_sp(t: TransactionV) -> Seq<u8> {
    keccak_of(tx_rlp_sp(t))
}

impl Transaction {
    /// Hash of the canonical serialization.
    pub fn hash(&self) -> (r: Vec<u8>)
        ensures
            r@ == tx_hash_sp(self@),
            r@.len() == 32,
    {
        let e = self.rlp();
        keccak(e.as_slice())
    }

    /// Hash of the serialization the sender signs.
    pub fn signing_hash(&self) -> (r: Vec<u8>)
        ensures
            r@ == keccak_of(tx_signing_rlp_sp(self@)),
            r@.len() == 32,
    {
        let e = self.signing_rlp();
        keccak(e.as_slice())
    }

    /// The sender: recovered from the signature over the signing hash.
    /// Fails when `v` is not 27 or 28 or no key can be recovered.
    pub fn caller(&self) -> (r: Option<Vec<u8>>)
        ensures
            r is Some <==> tx_caller_sp(self@) is Some,
            r is Some ==> Some(r->0@) == tx_caller_sp(self@),
            r is Some ==> r->0@.len() == 20,
    {
        if !(self.v == 27 || self.v == 28) {
            return None;
        }
        let h = self.signing_hash();
        let mut sig = self.r.to_be_bytes();
        let mut sb = self.s.to_be_bytes();
        proof {
            self.r.lemma_val_bound();
            self.s.lemma_val_bound();
            lemma_be32_of(sig@, self.r.val());
            lemma_be32_of(sb@, self.s.val());
        }
        sig.append(&mut sb);
        proof {
            assert(sig@ == self@.sig_bytes());
        }
        let p = match secp_recover(h.as_slice(), sig.as_slice(), (self.v - 27) as u8) {
            Some(p) => p,
            None => {
                return None;
            },
        };
        let body = crate::rlp::copy_range(p.as_slice(), 1, 64);
        proof {
            assert(body@ =~= p@.skip(1));
        }
        let h2 = keccak(body.as_slice());
        let a = crate::rlp::copy_range(h2.as_slice(), 12, 20);
        proof {
            assert(a@ =~= h2@.skip(12));
        }
        Some(a)
    }
}

/// A value as exactly 32 big-endian bytes.
pub open spec fn be32_of(v: nat) -> Seq<u8> {
    Seq::new((32 - crate::rlp::nat_min_be(v).len()) as nat, |i: int| 0u8)
        + crate::rlp::nat_min_be(v)
}

/// Any 32-byte string is the 32-byte form of its value.
pub proof fn lemma_be32_of(b: Seq<u8>, v: nat)
    requires
        b.len() == 32,
        crate::u256::be_val(b) == v,
        v < crate::u256::u256_bound(),
    ensures
        b == be32_of(v),
{
    crate::u256::lemma_pow256_values();
    crate::rlp::lemma_nat_min_be_len(v, 32);
    crate::rlp::lemma_nat_min_be_val(v);
    let z = Seq::new((32 - crate::rlp::nat_min_be(v).len()) as nat, |i: int| 0u8);
    crate::u256::lemma_be_val_concat(z, crate::rlp::nat_min_be(v));
    crate::u256::lemma_be_val_zeros(z);
    assert(crate::u256::be_val(z) * crate::u256::pow256(crate::rlp::nat_min_be(v).len())
        == 0) by (nonlinear_arith)
        requires
            crate::u256::be_val(z) == 0,
    ;
    assert(crate::u256::be_val(be32_of(v)) == v);
    crate::u256::lemma_be_val_inj(b, be32_of(v));
}

impl TransactionV {
    /// The 64 signature bytes: `r` then `s`, each 32 bytes.
    pub open spec fn sig_bytes(self) -> Seq<u8> {
        be32_of(self.r) + be32_of(self.s)
    }
}

/// The sender address a transaction's signature yields, if any.
pub open spec fn tx_caller_sp(t: TransactionV) -> Option<Seq<u8>> {
    if t.v == 27 || t.v == 28 {
        match recover_of(keccak_of(tx_signing_rlp_sp(t)), t.sig_bytes(), (t.v - 27) as nat) {
            Some(p) => Some(address_of_pub(p)),
            None => None,
        }
    } else {
        None
    }
}

/// The block hash: Keccak-256 of the header's serialization.
pub open spec fn header_hash_sp(h: crate::types::HeaderV) -> Seq<u8> {
    keccak_of(header_rlp_sp(h))
}

impl Header {
    /// The block hash.
    pub fn hash(&self) -> (r: Vec<u8>)
        ensures
            r@ == header_hash_sp(self@),
            r@.len() == 32,
    {
        let e = self.rlp();
        keccak(e.as_slice())
    }
}

/// The hash of the transaction a serialization decodes back to.
pub open spec fn reencoded_tx_hash(t: TransactionV) -> Seq<u8> {
    match crate::types::tx_parse_sp(tx_rlp_sp(t)) {
        Some(t2) => tx_hash_sp(t2),
        None => Seq::empty(),
    }
}

/// The transaction hash is stable under decoding and re-encoding: the
/// serialization, and with it the Keccak digest, comes back unchanged.
pub proof fn lemma_tx_hash_stable(t: TransactionV)
    requires
        wf_tx(t),
    ensures
        reencoded_tx_hash(t) == tx_hash_sp(t),
{
    crate::types::lemma_tx_round_trip(t);
}

} // verus!
