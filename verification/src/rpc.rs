//! The read and submission side of the JSON-RPC surface, as pure
//! functions of the chain store: block-tag resolution, state reads at
//! a height, hexadecimal response formatting, and building and
//! signing a transaction from request parameters.

use vstd::prelude::*;
use crate::chain::MinerState;
use crate::crypto::{address_of_secret, address_of_secret_sp, ecdsa_sig_of, header_hash_sp, keccak_of, sec_key_ok, secp_sign};
use crate::error::Error;
use crate::hex::{bytes_of_hex, digit_of_nibble, hex_of_bytes, pad_even, read_hex, strip_0x, to_hex, all_hex_digits};
use crate::types::{Transaction, TransactionAction, tx_signing_rlp_sp};
use crate::u256::{U256, be_val};
use crate::util::{bytes_eq, clone_bytes};

verus! {

/// The block tags of the wire protocol, as byte strings.
pub open spec fn latest_tag() -> Seq<u8> {
    seq![108u8, 97u8, 116u8, 101u8, 115u8, 116u8]
}

pub open spec fn pending_tag() -> Seq<u8> {
    seq![112u8, 101u8, 110u8, 100u8, 105u8, 110u8, 103u8]
}

pub open spec fn earliest_tag() -> Seq<u8> {
    seq![101u8, 97u8, 114u8, 108u8, 105u8, 101u8, 115u8, 116u8]
}

/// What a block parameter resolves to: the height for `latest`,
/// `pending` or nothing; zero for `earliest`; a hex number when it is
/// in range; refused otherwise.
pub open spec fn block_number_sp(st: MinerState, value: Option<Seq<u8>>) -> Result<int, Error> {
    let height = st.blocks@.len() - 1;
    match value {
        None => Ok(height),
        Some(s) => if s == latest_tag() || s == pending_tag() {
            Ok(height)
        } else if s == earliest_tag() {
            Ok(0int)
        } else if s.len() >= 2 && s[0] == 48 && s[1] == 120
            && all_hex_digits(strip_0x(s)) {
            let v = be_val(bytes_of_hex(pad_even(strip_0x(s))));
            if v > height {
                Err(Error::NotFound)
            } else {
                Ok(v as int)
            }
        } else {
            Err(Error::HexError)
        },
    }
}

/// A literal tag as a vector.
fn tag_bytes(which: u8) -> (r: Vec<u8>)
    ensures
        which == 0 ==> r@ == latest_tag(),
        which == 1 ==> r@ == pending_tag(),
        which == 2 ==> r@ == earliest_tag(),
{
    let mut r: Vec<u8> = Vec::new();
    if which == 0 {
        r.push(108);
        r.push(97);
        r.push(116);
        r.push(101);
        r.push(115);
        r.push(116);
        proof {
            assert(r@ =~= latest_tag());
        }
    } else if which == 1 {
        r.push(112);
        r.push(101);
        r.push(110);
        r.push(100);
        r.push(105);
        r.push(110);
        r.push(103);
        proof {
            assert(r@ =~= pending_tag());
        }
    } else if which == 2 {
        r.push(101);
        r.push(97);
        r.push(114);
        r.push(108);
        r.push(105);
        r.push(101);
        r.push(115);
        r.push(116);
        proof {
            assert(r@ =~= earliest_tag());
        }
    }
    r
}

/// Resolve the `block` parameter of a read: a tag, or a height in
/// `0x` hexadecimal as the wire rules ask.
#[verifier::rlimit(100)]
#[verifier::spinoff_prover]
pub fn from_block_number(st: &MinerState, value: Option<&Vec<u8>>) -> (r: Result<usize, Error>)
    requires
        st.wf(),
    ensures
        r is Ok <==> block_number_sp(*st, match value {
            Some(v) => Some(v@),
            None => None::<Seq<u8>>,
        }) is Ok,
        r is Ok ==> r->Ok_0 as int == block_number_sp(*st, match value {
            Some(v) => Some(v@),
            None => None,
        })->Ok_0,
        r is Err ==> Err::<int, Error>(r->Err_0) == block_number_sp(*st, match value {
            Some(v) => Some(v@),
            None => None,
        }),
{
    let height = st.block_height();
    let v = match value {
        None => {
            return Ok(height);
        },
        Some(v) => v,
    };
    let latest = tag_bytes(0);
    let pending = tag_bytes(1);
    let earliest = tag_bytes(2);
    if bytes_eq(v, &latest) || bytes_eq(v, &pending) {
        return Ok(height);
    }
    if bytes_eq(v, &earliest) {
        return Ok(0);
    }
    if !(v.len() >= 2 && v[0] == 48 && v[1] == 120) {
        return Err(Error::HexError);
    }
    let bytes = match read_hex(v.as_slice()) {
        Ok(b) => b,
        Err(e) => {
            return Err(Error::HexError);
        },
    };
    if bytes.len() > 32 {
        // A number this wide is beyond any height; but a leading zero
        // byte may still hide a small value, so read it exactly.
        let n = U256::from_be_bytes(crate::rlp::copy_range(
            bytes.as_slice(),
            bytes.len() - 32,
            32,
        ).as_slice());
        let mut lead_zero = true;
        let mut q: usize = 0;
        while q < bytes.len() - 32
            invariant
                bytes@.len() > 32,
                q <= bytes@.len() - 32,
                lead_zero == forall|y: int| 0 <= y < q ==> bytes@[y] == 0u8,
            decreases bytes@.len() - 32 - q,
        {
            if bytes[q] != 0 {
                lead_zero = false;
                proof {
                    assert(!(forall|y: int| 0 <= y < q + 1 ==> bytes@[y] == 0u8));
                }
            }
            q = q + 1;
        }
        if !lead_zero {
            proof {
                let z = choose|y: int| 0 <= y < bytes@.len() - 32 && bytes@[y] != 0u8;
                lemma_wide_value_large(bytes@, z);
                st.blocks@.len();
            }
            return Err(Error::NotFound);
        }
        proof {
            let z = bytes@.subrange(0, bytes@.len() - 32);
            assert(bytes@ =~= z + bytes@.subrange(bytes@.len() - 32, bytes@.len() as int));
            crate::u256::lemma_be_val_concat(z, bytes@.subrange(
                bytes@.len() - 32,
                bytes@.len() as int,
            ));
            crate::u256::lemma_be_val_zeros(z);
        }
        if n.fits_u64() && n.as_u64() <= height as u64 {
            return Ok(n.as_u64() as usize);
        }
        return Err(Error::NotFound);
    }
    let n = U256::from_be_bytes(bytes.as_slice());
    proof {
        crate::u256::lemma_be_val_bound(bytes@);
        crate::u256::lemma_pow256_mono(bytes@.len(), 32);
        crate::u256::lemma_pow256_values();
    }
    if n.fits_u64() && n.as_u64() <= height as u64 {
        Ok(n.as_u64() as usize)
    } else {
        Err(Error::NotFound)
    }
}

/// Every wide string with a nonzero byte among its leaders spells a
/// value past any chain height.
proof fn lemma_wide_value_large(s: Seq<u8>, z: int)
    requires
        s.len() > 32,
        0 <= z < s.len() - 32,
        s[z] != 0,
    ensures
        be_val(s) >= 0x10000000000000000,
{
    let tail = s.skip(z);
    assert(s =~= s.take(z) + tail);
    crate::u256::lemma_be_val_concat(s.take(z), tail);
    crate::u256::lemma_be_val_min_lower(tail);
    crate::u256::lemma_pow256_mono(8, (tail.len() - 1) as nat);
    crate::u256::lemma_pow256_values();
    assert(be_val(s) >= be_val(tail)) by {
        vstd::arithmetic::mul::lemma_mul_inequality(
            0,
            be_val(s.take(z)) as int,
            crate::u256::pow256(tail.len()) as int,
        );
    }
}

/// The balance at an address, at a height: zero for an absent
/// account — an address no transaction ever touched reads zero at
/// every height.
pub fn balance(st: &MinerState, address: &Vec<u8>, number: usize) -> (r: U256)
    requires
        st.wf(),
        number < st.blocks@.len(),
    ensures
        r.val() == ({
            let w = st.world_history@[number as int]@;
            if w.contains_key(address@) {
                w[address@].balance
            } else {
                0nat
            }
        }),
{
    st.stateful_at(number).balance_of(address)
}

/// The stored-transaction count (the nonce) at an address, at a
/// height; zero for an absent account.
pub fn transaction_count(st: &MinerState, address: &Vec<u8>, number: usize) -> (r: U256)
    requires
        st.wf(),
        number < st.blocks@.len(),
    ensures
        r.val() == ({
            let w = st.world_history@[number as int]@;
            if w.contains_key(address@) {
                w[address@].nonce
            } else {
                0nat
            }
        }),
{
    st.stateful_at(number).nonce_of(address)
}

/// The code at an address, at a height; empty for an absent account.
pub fn code(st: &MinerState, address: &Vec<u8>, number: usize) -> (r: Vec<u8>)
    requires
        st.wf(),
        number < st.blocks@.len(),
    ensures
        r@ == ({
            let w = st.world_history@[number as int]@;
            if w.contains_key(address@) {
                w[address@].code
            } else {
                Seq::<u8>::empty()
            }
        }),
{
    st.stateful_at(number).code_of(address)
}

/// The storage slot at an address, at a height; zero when unset.
pub fn storage_at(st: &MinerState, address: &Vec<u8>, index: &U256, number: usize) -> (r: U256)
    requires
        st.wf(),
        number < st.blocks@.len(),
    ensures
        r.val() == ({
            let w = st.world_history@[number as int]@;
            if w.contains_key(address@) && w[address@].storage.contains_key(index.val()) {
                w[address@].storage[index.val()]
            } else {
                0nat
            }
        }),
{
    st.stateful_at(number).storage_of(address, index)
}

/// The minimal lowercase hexadecimal digits of a number.
pub open spec fn hex_digits_of(n: nat) -> Seq<u8>
    decreases n,
{
    if n == 0 {
        Seq::empty()
    } else {
        hex_digits_of(n / 16).push(digit_of_nibble((n % 16) as u8))
    }
}

/// The wire form of an integer: `0x`, then its minimal digits, with
/// a single `0` for zero.
pub open spec fn hex_of_nat(n: nat) -> Seq<u8> {
    if n == 0 {
        seq![48u8, 120u8, 48u8]
    } else {
        seq![48u8, 120u8] + hex_digits_of(n)
    }
}

/// The minimal digits of a value are the full digits of its minimal
/// bytes, less a leading zero nibble.
#[verifier::rlimit(100)]
#[verifier::spinoff_prover]
proof fn lemma_hex_digits_of_bytes(s: Seq<u8>)
    requires
        s.len() > 0,
        s[0] != 0,
    ensures
        hex_digits_of(be_val(s)) == if s[0] < 16 {
            hex_of_bytes(s).skip(1)
        } else {
            hex_of_bytes(s)
        },
    decreases s.len(),
{
    if s.len() == 1 {
        let b = s[0] as nat;
        assert(be_val(s) == b) by {
            assert(s.drop_last() =~= Seq::<u8>::empty());
            assert(be_val(Seq::<u8>::empty()) == 0);
        }
        assert(hex_digits_of(0nat) =~= Seq::<u8>::empty());
        assert(hex_of_bytes(s) == hex_of_bytes(Seq::<u8>::empty()) + seq![
            digit_of_nibble(s[0] / 16),
            digit_of_nibble(s[0] % 16),
        ]);
        if b < 16 {
            assert(b / 16 == 0);
            assert(hex_digits_of(b) == hex_digits_of(b / 16).push(
                digit_of_nibble((b % 16) as u8)));
            assert(hex_digits_of(b) =~= seq![digit_of_nibble((b % 16) as u8)]);
            assert(b % 16 == b && s[0] % 16 == s[0]);
            assert(hex_of_bytes(s).skip(1) =~= seq![digit_of_nibble(s[0] % 16)]);
        } else {
            assert(hex_digits_of(b) == hex_digits_of(b / 16).push(
                digit_of_nibble((b % 16) as u8)));
            assert(b / 16 > 0 && b / 16 < 16);
            assert(hex_digits_of(b / 16) == hex_digits_of(b / 16 / 16).push(
                digit_of_nibble((b / 16 % 16) as u8)));
            assert(b / 16 / 16 == 0);
            assert(b / 16 % 16 == b / 16);
            assert(s[0] / 16 == b / 16 && s[0] % 16 == b % 16);
            assert(hex_digits_of(b) =~= seq![
                digit_of_nibble((b / 16) as u8),
                digit_of_nibble((b % 16) as u8),
            ]);
            assert(hex_of_bytes(s) =~= seq![
                digit_of_nibble(s[0] / 16),
                digit_of_nibble(s[0] % 16),
            ]);
        }
    } else {
        let p = s.drop_last();
        let b = s.last() as nat;
        let v = be_val(s);
        let vp = be_val(p);
        lemma_hex_digits_of_bytes(p);
        assert(p[0] == s[0]);
        assert(v == vp * 256 + b);
        assert(vp > 0) by {
            crate::u256::lemma_be_val_min_lower(p);
            crate::u256::lemma_pow256_mono(0, (p.len() - 1) as nat);
        }
        let mid = vp * 16 + b / 16;
        vstd::arithmetic::div_mod::lemma_fundamental_div_mod_converse(
            v as int,
            16,
            mid as int,
            (b % 16) as int,
        );
        assert(v as int == mid * 16 + (b % 16)) by (nonlinear_arith)
            requires
                v == vp * 256 + b,
                mid == vp * 16 + b / 16,
                b < 256,
                b == 16 * (b / 16) + b % 16,
        ;
        vstd::arithmetic::div_mod::lemma_fundamental_div_mod_converse(
            mid as int,
            16,
            vp as int,
            (b / 16) as int,
        );
        assert(hex_digits_of(v) == hex_digits_of(mid).push(digit_of_nibble((b % 16) as u8)));
        assert(hex_digits_of(mid) == hex_digits_of(vp).push(digit_of_nibble((b / 16) as u8)));
        assert(digit_of_nibble((b / 16) as u8) == digit_of_nibble(s.last() / 16));
        assert(digit_of_nibble((b % 16) as u8) == digit_of_nibble(s.last() % 16));
        if s[0] < 16 {
            assert(hex_digits_of(v) =~= hex_of_bytes(s).skip(1));
        } else {
            assert(hex_digits_of(v) =~= hex_of_bytes(s));
        }
    }
}

/// Format a number for the wire: minimal lowercase hex.
pub fn u256_to_hex(x: &U256) -> (r: Vec<u8>)
    ensures
        r@ == hex_of_nat(x.val()),
{
    let mb = x.to_min_be();
    if mb.len() == 0 {
        let mut r: Vec<u8> = Vec::new();
        r.push(48);
        r.push(120);
        r.push(48);
        proof {
            assert(r@ =~= hex_of_nat(0));
        }
        return r;
    }
    let full = to_hex(mb.as_slice());
    proof {
        lemma_hex_digits_of_bytes(mb@);
        crate::u256::lemma_be_val_min_lower(mb@);
        crate::u256::lemma_pow256_mono(0, (mb@.len() - 1) as nat);
    }
    if mb[0] >= 16 {
        proof {
            assert(full@ =~= hex_of_nat(x.val()));
        }
        return full;
    }
    let mut r: Vec<u8> = Vec::new();
    r.push(48);
    r.push(120);
    let tail = crate::rlp::copy_range(full.as_slice(), 3, full.len() - 3);
    crate::rlp::push_all(&mut r, tail.as_slice());
    proof {
        assert(hex_of_bytes(mb@).len() == 2 * mb@.len()) by {
            lemma_hex_len(mb@);
        }
        assert(tail@ =~= hex_of_bytes(mb@).skip(1));
        assert(r@ =~= hex_of_nat(x.val()));
    }
    r
}

/// Full-width hexadecimal is two digits per byte.
proof fn lemma_hex_len(s: Seq<u8>)
    ensures
        hex_of_bytes(s).len() == 2 * s.len(),
    decreases s.len(),
{
    if s.len() > 0 {
        lemma_hex_len(s.drop_last());
    }
}

/// Format a machine word for the wire.
pub fn u64_to_hex(x: u64) -> (r: Vec<u8>)
    ensures
        r@ == hex_of_nat(x as nat),
{
    let v = U256::from_u64(x);
    u256_to_hex(&v)
}

/// Format a byte string for the wire: `0x`, two digits per byte.
pub fn bytes_to_hex(data: &Vec<u8>) -> (r: Vec<u8>)
    ensures
        r@ == seq![48u8, 120u8] + hex_of_bytes(data@),
{
    to_hex(data.as_slice())
}

/// Is some managed key the sender's? The node signs only for
/// addresses whose 32-byte secret it holds.
pub open spec fn managed_key_for_sp(st: MinerState, from: Seq<u8>) -> bool {
    exists|i: int|
        0 <= i < st.accounts@.len() && (#[trigger] st.accounts@[i])@.len() == 32
            && sec_key_ok(st.accounts@[i]@) && address_of_secret_sp(st.accounts@[i]@) == from
}

/// The transaction carries the deterministic signature of the
/// `i`-th managed key, whose address is the sender.
pub open spec fn signed_with(
    st: MinerState,
    t: crate::types::TransactionV,
    from: Seq<u8>,
    i: int,
) -> bool {
    let sig = ecdsa_sig_of(keccak_of(tx_signing_rlp_sp(t)), st.accounts@[i]@);
    &&& 0 <= i < st.accounts@.len()
    &&& sec_key_ok(st.accounts@[i]@)
    &&& address_of_secret_sp(st.accounts@[i]@) == from
    &&& t.v == 27 + sig[0]
    &&& t.r == be_val(sig.subrange(1, 33))
    &&& t.s == be_val(sig.subrange(33, 65))
}

/// Build and sign a transaction from request parameters, as
/// submission does: a missing nonce is read from the sender's
/// account, missing gas defaults to 90000, everything else to zero.
/// Refused when no managed key matches the sender.
pub fn to_signed_transaction(
    st: &MinerState,
    from: &Vec<u8>,
    to: Option<Vec<u8>>,
    gas: Option<U256>,
    gas_price: Option<U256>,
    value: Option<U256>,
    data: Vec<u8>,
    nonce: Option<U256>,
) -> (r: Result<Transaction, Error>)
    requires
        st.wf(),
    ensures
        r is Ok ==> ({
            let t = r->Ok_0@;
            &&& t.gas_limit == (match gas {
                Some(g) => g.val(),
                None => 90000nat,
            })
            &&& t.gas_price == (match gas_price {
                Some(g) => g.val(),
                None => 0nat,
            })
            &&& t.value == (match value {
                Some(v) => v.val(),
                None => 0nat,
            })
            &&& t.input == data@
            &&& t.nonce == (match nonce {
                Some(n) => n.val(),
                None => if st.world@.contains_key(from@) {
                    st.world@[from@].nonce
                } else {
                    0nat
                },
            })
            &&& (match to {
                Some(a) => t.action == crate::types::ActionV::Call(a@),
                None => t.action is Create,
            })
        }),
        r is Ok ==> exists|i: int| #[trigger] signed_with(*st, r->Ok_0@, from@, i),
        r is Ok <==> managed_key_for_sp(*st, from@),
        r is Err ==> r->Err_0 == Error::NotFound,
{
    // Find the managed key for the sender.
    let mut key: Option<Vec<u8>> = None;
    let mut i: usize = 0;
    let mut found: usize = 0;
    while i < st.accounts.len()
        invariant
            st.wf(),
            i <= st.accounts@.len(),
            key is Some ==> found < st.accounts@.len()
                && key->0@ == st.accounts@[found as int]@
                && key->0@.len() == 32
                && sec_key_ok(st.accounts@[found as int]@)
                && address_of_secret_sp(st.accounts@[found as int]@) == from@,
            key is None ==> forall|j: int| 0 <= j < i
                ==> !((#[trigger] st.accounts@[j])@.len() == 32
                    && sec_key_ok(st.accounts@[j]@)
                    && address_of_secret_sp(st.accounts@[j]@) == from@),
        decreases st.accounts@.len() - i,
    {
        let k = &st.accounts[i];
        if k.len() == 32 {
            match address_of_secret(k.as_slice()) {
                Some(a) => {
                    if bytes_eq(&a, from) {
                        key = Some(clone_bytes(k));
                        found = i;
                    }
                },
                None => {
                },
            }
        }
        i = i + 1;
    }
    let key = match key {
        Some(k) => k,
        None => {
            return Err(Error::NotFound);
        },
    };
    let nonce_v = match nonce {
        Some(n) => n,
        None => st.stateful().nonce_of(from),
    };
    let gas_v = match gas {
        Some(g) => g,
        None => U256::from_u64(90000),
    };
    let gas_price_v = match gas_price {
        Some(g) => g,
        None => U256::zero(),
    };
    let value_v = match value {
        Some(v) => v,
        None => U256::zero(),
    };
    let action = match to {
        Some(a) => TransactionAction::Call(a),
        None => TransactionAction::Create,
    };
    let mut tx = Transaction {
        nonce: nonce_v,
        gas_price: gas_price_v,
        gas_limit: gas_v,
        action,
        value: value_v,
        input: data,
        v: 0,
        r: U256::zero(),
        s: U256::zero(),
    };
    let h = tx.signing_hash();
    let sig = match secp_sign(h.as_slice(), key.as_slice()) {
        Some(s) => s,
        None => {
            // Unreachable: the key was found usable above.
            proof {
                assert(false);
            }
            return Err(Error::NotFound);
        },
    };
    let rid = sig[0];
    let rb = crate::rlp::copy_range(sig.as_slice(), 1, 32);
    let sb = crate::rlp::copy_range(sig.as_slice(), 33, 32);
    tx.v = 27 + rid as u64;
    tx.r = U256::from_be_bytes(rb.as_slice());
    tx.s = U256::from_be_bytes(sb.as_slice());
    proof {
        assert(rb@ =~= sig@.subrange(1, 33));
        assert(sb@ =~= sig@.subrange(33, 65));
        assert(signed_with(*st, tx@, from@, found as int));
    }
    Ok(tx)
}


/// Build the transaction a read-only execution would run, as the
/// call and gas-estimate paths do: the sender is taken as given, a
/// missing nonce is read from the sender's account, missing gas
/// defaults to 90000, everything else to zero.
pub fn to_valid_transaction(
    st: &MinerState,
    from: &Vec<u8>,
    to: Option<Vec<u8>>,
    gas: Option<U256>,
    gas_price: Option<U256>,
    value: Option<U256>,
    data: Vec<u8>,
    nonce: Option<U256>,
) -> (r: crate::state::ValidTransaction)
    requires
        st.wf(),
    ensures
        r.caller is Some && r.caller->0@ == from@,
        r.gas_limit.val() == (match gas {
            Some(g) => g.val(),
            None => 90000nat,
        }),
        r.gas_price.val() == (match gas_price {
            Some(g) => g.val(),
            None => 0nat,
        }),
        r.value.val() == (match value {
            Some(v) => v.val(),
            None => 0nat,
        }),
        r.input@ == data@,
        r.nonce.val() == (match nonce {
            Some(n) => n.val(),
            None => if st.world@.contains_key(from@) {
                st.world@[from@].nonce
            } else {
                0nat
            },
        }),
        (match to {
            Some(a) => r.action@ == crate::types::ActionV::Call(a@),
            None => r.action@ is Create,
        }),
{
    let nonce_v = match nonce {
        Some(n) => n,
        None => st.stateful().nonce_of(from),
    };
    let gas_v = match gas {
        Some(g) => g,
        None => U256::from_u64(90000),
    };
    let gas_price_v = match gas_price {
        Some(g) => g,
        None => U256::zero(),
    };
    let value_v = match value {
        Some(v) => v,
        None => U256::zero(),
    };
    let action = match to {
        Some(a) => TransactionAction::Call(a),
        None => TransactionAction::Create,
    };
    crate::state::ValidTransaction {
        caller: Some(clone_bytes(from)),
        gas_price: gas_price_v,
        gas_limit: gas_v,
        action,
        value: value_v,
        input: data,
        nonce: nonce_v,
    }
}

/// Each digit character a number prints is a hexadecimal digit.
proof fn lemma_hex_digits_are_digits(n: nat)
    ensures
        all_hex_digits(hex_digits_of(n)),
    decreases n,
{
    if n > 0 {
        lemma_hex_digits_are_digits(n / 16);
        let d = hex_digits_of(n);
        assert forall|i: int| 0 <= i < d.len()
            implies crate::hex::is_hex_digit(#[trigger] d[i]) by {
            if i < d.len() - 1 {
                assert(d[i] == hex_digits_of(n / 16)[i]);
            }
        }
    }
}

/// Reading back full-width hexadecimal gives the bytes.
proof fn lemma_bytes_of_hex_inverse(s: Seq<u8>)
    ensures
        bytes_of_hex(hex_of_bytes(s)) == s,
    decreases s.len(),
{
    if s.len() == 0 {
        assert(bytes_of_hex(hex_of_bytes(s)) =~= s);
    } else {
        lemma_bytes_of_hex_inverse(s.drop_last());
        let t = hex_of_bytes(s);
        crate::rpc::lemma_hex_len(s);
        crate::rpc::lemma_hex_len(s.drop_last());
        assert(t.drop_last().drop_last() =~= hex_of_bytes(s.drop_last()));
        assert(t[t.len() - 2] == digit_of_nibble(s.last() / 16));
        assert(t.last() == digit_of_nibble(s.last() % 16));
        lemma_nibble_value(s.last() / 16);
        lemma_nibble_value(s.last() % 16);
        assert(bytes_of_hex(t) =~= s);
    }
}

/// Printing and re-reading a nibble is the identity.
proof fn lemma_nibble_value(x: u8)
    requires
        x < 16,
    ensures
        crate::hex::hex_digit_value(digit_of_nibble(x)) == x,
{
}

/// The wire form of a number reads back to the number: its digits
/// are hexadecimal, and their value is the number itself.
pub proof fn lemma_hex_wire_round_trip(n: nat)
    requires
        n < crate::u256::u256_bound(),
    ensures
        all_hex_digits(strip_0x(hex_of_nat(n))),
        be_val(bytes_of_hex(pad_even(strip_0x(hex_of_nat(n))))) == n,
{
    let w = hex_of_nat(n);
    if n == 0 {
        assert(strip_0x(w) =~= seq![48u8]);
        let p = pad_even(strip_0x(w));
        assert(p =~= seq![48u8, 48u8]);
        assert(p.drop_last().drop_last() =~= Seq::<u8>::empty());
        assert(bytes_of_hex(Seq::<u8>::empty()) =~= Seq::<u8>::empty());
        assert(crate::hex::hex_digit_value(48) == 0);
        assert(bytes_of_hex(p) =~= seq![0u8]);
        assert(be_val(seq![0u8]) == 0) by {
            assert(seq![0u8].drop_last() =~= Seq::<u8>::empty());
            assert(be_val(Seq::<u8>::empty()) == 0);
        }
    } else {
        let d = hex_digits_of(n);
        assert(strip_0x(w) =~= d);
        lemma_hex_digits_are_digits(n);
        let s = crate::rlp::nat_min_be(n);
        crate::rlp::lemma_nat_min_be_val(n);
        crate::u256::lemma_pow256_values();
        crate::rlp::lemma_nat_min_be_len(n, 32);
        assert(s.len() > 0);
        lemma_hex_digits_of_bytes(s);
        crate::rpc::lemma_hex_len(s);
        lemma_bytes_of_hex_inverse(s);
        if s[0] < 16 {
            assert(d == hex_of_bytes(s).skip(1));
            assert(d.len() % 2 == 1);
            let p = pad_even(d);
            assert(hex_of_bytes(s)[0] == digit_of_nibble(s[0] / 16)) by {
                lemma_first_hex_digit(s);
            }
            assert(s[0] / 16 == 0);
            assert(p =~= hex_of_bytes(s));
        } else {
            assert(d == hex_of_bytes(s));
            assert(pad_even(d) =~= hex_of_bytes(s));
        }
    }
}

/// The first printed digit is the first byte's high nibble.
proof fn lemma_first_hex_digit(s: Seq<u8>)
    requires
        s.len() > 0,
    ensures
        hex_of_bytes(s)[0] == digit_of_nibble(s[0] / 16),
    decreases s.len(),
{
    if s.len() == 1 {
        assert(hex_of_bytes(s.drop_last()) =~= Seq::<u8>::empty());
    } else {
        lemma_first_hex_digit(s.drop_last());
        crate::rpc::lemma_hex_len(s.drop_last());
        assert(hex_of_bytes(s)[0] == hex_of_bytes(s.drop_last())[0]);
    }
}


/// A log as the wire shows it: every field already in `0x` form.
pub struct RpcLog {
    pub removed: bool,
    pub log_index: Vec<u8>,
    pub transaction_index: Vec<u8>,
    pub transaction_hash: Vec<u8>,
    pub block_hash: Vec<u8>,
    pub block_number: Vec<u8>,
    pub data: Vec<u8>,
    pub topics: Vec<Vec<u8>>,
}

/// Format one log for the wire.
pub fn to_rpc_log(
    log: &crate::types::Log,
    log_index: usize,
    transaction_hash: &Vec<u8>,
    transaction_index: usize,
    block_hash: &Vec<u8>,
    block_number: u64,
) -> (r: RpcLog)
    ensures
        r.removed == false,
        r.log_index@ == hex_of_nat(log_index as nat),
        r.transaction_index@ == hex_of_nat(transaction_index as nat),
        r.transaction_hash@ == seq![48u8, 120u8] + hex_of_bytes(transaction_hash@),
        r.block_hash@ == seq![48u8, 120u8] + hex_of_bytes(block_hash@),
        r.block_number@ == hex_of_nat(block_number as nat),
        r.data@ == seq![48u8, 120u8] + hex_of_bytes(log@.data),
        r.topics@.len() == log@.topics.len(),
        forall|i: int| 0 <= i < r.topics@.len()
            ==> (#[trigger] r.topics@[i])@ == seq![48u8, 120u8] + hex_of_bytes(
            log@.topics[i]),
{
    let mut topics: Vec<Vec<u8>> = Vec::new();
    let mut i: usize = 0;
    while i < log.topics.len()
        invariant
            i <= log.topics@.len(),
            topics@.len() == i,
            forall|k: int| 0 <= k < i ==> (#[trigger] topics@[k])@ == seq![48u8, 120u8]
                + hex_of_bytes(log.topics@[k]@),
        decreases log.topics@.len() - i,
    {
        topics.push(bytes_to_hex(&log.topics[i]));
        i = i + 1;
    }
    RpcLog {
        removed: false,
        log_index: u64_to_hex(log_index as u64),
        transaction_index: u64_to_hex(transaction_index as u64),
        transaction_hash: bytes_to_hex(transaction_hash),
        block_hash: bytes_to_hex(block_hash),
        block_number: u64_to_hex(block_number),
        data: bytes_to_hex(&log.data),
        topics,
    }
}

/// A transaction as the wire shows it.
pub struct RpcTransaction {
    pub from: Option<Vec<u8>>,
    pub to: Option<Vec<u8>>,
    pub gas: Vec<u8>,
    pub gas_price: Vec<u8>,
    pub value: Vec<u8>,
    pub data: Vec<u8>,
    pub nonce: Vec<u8>,
    pub hash: Vec<u8>,
    pub block_hash: Option<Vec<u8>>,
    pub block_number: Option<Vec<u8>>,
    pub transaction_index: Option<Vec<u8>>,
}

/// The position of a transaction's hash inside a block's body: the
/// first match, if any.
pub open spec fn tx_index_sp(b: crate::types::BlockV, h: Seq<u8>) -> Option<int>
    decreases b.transactions.len(),
{
    if b.transactions.len() == 0 {
        None
    } else if crate::crypto::tx_hash_sp(b.transactions[0]) == h {
        Some(0int)
    } else {
        let rest = crate::types::BlockV {
            transactions: b.transactions.skip(1),
            ..b
        };
        match tx_index_sp(rest, h) {
            Some(i) => Some(i + 1),
            None => None,
        }
    }
}

/// Format a transaction for the wire, with its block bindings when
/// the block that holds it is given.
#[verifier::rlimit(100)]
#[verifier::spinoff_prover]
pub fn to_rpc_transaction(tx: &Transaction, block: Option<&crate::types::Block>) -> (r:
    RpcTransaction)
    ensures
        (match crate::crypto::tx_caller_sp(tx@) {
            Some(a) => r.from matches Some(f) && f@ == seq![48u8, 120u8] + hex_of_bytes(a),
            None => r.from is None,
        }),
        (match tx@.action {
            crate::types::ActionV::Call(a) => r.to matches Some(t) && t@ == seq![
                48u8,
                120u8,
            ] + hex_of_bytes(a),
            crate::types::ActionV::Create => r.to is None,
        }),
        r.gas@ == hex_of_nat(tx@.gas_limit),
        r.gas_price@ == hex_of_nat(tx@.gas_price),
        r.value@ == hex_of_nat(tx@.value),
        r.data@ == seq![48u8, 120u8] + hex_of_bytes(tx@.input),
        r.nonce@ == hex_of_nat(tx@.nonce),
        r.hash@ == seq![48u8, 120u8] + hex_of_bytes(crate::crypto::tx_hash_sp(tx@)),
        (match block {
            Some(b) => {
                &&& (r.block_hash matches Some(h) && h@ == seq![48u8, 120u8]
                    + hex_of_bytes(header_hash_sp(b@.header)))
                &&& (r.block_number matches Some(n) && n@ == hex_of_nat(b@.header.number))
                &&& (match tx_index_sp(b@, crate::crypto::tx_hash_sp(tx@)) {
                    Some(i) => r.transaction_index matches Some(x)
                        && x@ == hex_of_nat(i as nat),
                    None => r.transaction_index is None,
                })
            },
            None => r.block_hash is None && r.block_number is None
                && r.transaction_index is None,
        }),
{
    let from = match tx.caller() {
        Some(a) => Some(bytes_to_hex(&a)),
        None => None,
    };
    let to = match &tx.action {
        TransactionAction::Call(a) => Some(bytes_to_hex(a)),
        TransactionAction::Create => None,
    };
    let hash = tx.hash();
    let (block_hash, block_number, transaction_index) = match block {
        Some(b) => {
            let bh = b.header.hash();
            let idx = find_tx_index(b, &hash);
            (
                Some(bytes_to_hex(&bh)),
                Some(u64_to_hex(b.header.number)),
                match idx {
                    Some(i) => Some(u64_to_hex(i as u64)),
                    None => None,
                },
            )
        },
        None => (None, None, None),
    };
    RpcTransaction {
        from,
        to,
        gas: u256_to_hex(&tx.gas_limit),
        gas_price: u256_to_hex(&tx.gas_price),
        value: u256_to_hex(&tx.value),
        data: bytes_to_hex(&tx.input),
        nonce: u256_to_hex(&tx.nonce),
        hash: bytes_to_hex(&hash),
        block_hash,
        block_number,
        transaction_index,
    }
}

/// The first position of a hash in a block's body.
fn find_tx_index(b: &crate::types::Block, h: &Vec<u8>) -> (r: Option<usize>)
    ensures
        (match tx_index_sp(b@, h@) {
            Some(i) => r matches Some(x) && x as int == i,
            None => r is None,
        }),
        r matches Some(x) ==> x < b.transactions@.len(),
{
    let mut i: usize = 0;
    while i < b.transactions.len()
        invariant
            i <= b.transactions@.len(),
            forall|k: int| 0 <= k < i ==> crate::crypto::tx_hash_sp(
                (#[trigger] b.transactions@[k])@) != h@,
        decreases b.transactions@.len() - i,
    {
        let th = b.transactions[i].hash();
        if bytes_eq(&th, h) {
            proof {
                lemma_tx_index_at(b@, h@, i as int);
            }
            return Some(i);
        }
        i = i + 1;
    }
    proof {
        lemma_tx_index_absent(b@, h@);
    }
    None
}

/// With the first `i` hashes different, the index of a matching
/// transaction is exactly `i`.
proof fn lemma_tx_index_at(b: crate::types::BlockV, h: Seq<u8>, i: int)
    requires
        0 <= i < b.transactions.len(),
        crate::crypto::tx_hash_sp(b.transactions[i]) == h,
        forall|k: int| 0 <= k < i ==> crate::crypto::tx_hash_sp(
            #[trigger] b.transactions[k]) != h,
    ensures
        tx_index_sp(b, h) == Some(i),
    decreases i,
{
    if i == 0 {
    } else {
        let rest = crate::types::BlockV { transactions: b.transactions.skip(1), ..b };
        assert(crate::crypto::tx_hash_sp(b.transactions[0]) != h);
        assert(forall|k: int| 0 <= k < i - 1 ==> crate::crypto::tx_hash_sp(
            #[trigger] rest.transactions[k]) != h);
        assert(rest.transactions[i - 1] == b.transactions[i]);
        lemma_tx_index_at(rest, h, i - 1);
    }
}

proof fn lemma_tx_index_absent(b: crate::types::BlockV, h: Seq<u8>)
    requires
        forall|k: int| 0 <= k < b.transactions.len() ==> crate::crypto::tx_hash_sp(
            #[trigger] b.transactions[k]) != h,
    ensures
        tx_index_sp(b, h) is None,
    decreases b.transactions.len(),
{
    if b.transactions.len() > 0 {
        let rest = crate::types::BlockV { transactions: b.transactions.skip(1), ..b };
        assert(forall|k: int| 0 <= k < rest.transactions.len()
            ==> crate::crypto::tx_hash_sp(#[trigger] rest.transactions[k]) != h);
        lemma_tx_index_absent(rest, h);
    }
}


/// A receipt as the wire shows it.
pub struct RpcReceipt {
    pub transaction_hash: Vec<u8>,
    pub transaction_index: Vec<u8>,
    pub block_hash: Vec<u8>,
    pub block_number: Vec<u8>,
    pub cumulative_gas_used: Vec<u8>,
    pub gas_used: Vec<u8>,
    pub contract_address: Option<Vec<u8>>,
    pub logs: Vec<RpcLog>,
}

/// The gas the block's transactions up to position `upto` spent,
/// read from their receipts; nothing when one is not indexed.
pub open spec fn cumulative_gas_sp(
    st: MinerState,
    txs: Seq<crate::types::TransactionV>,
    upto: int,
) -> Option<nat>
    decreases upto + 1,
{
    if upto < 0 || upto >= txs.len() {
        Some(0)
    } else {
        match cumulative_gas_sp(st, txs, upto - 1) {
            None => None,
            Some(acc) => {
                let h = crate::crypto::tx_hash_sp(txs[upto]);
                if st.receipt_map().contains_key(h) {
                    Some(acc + st.receipt_map()[h].used_gas)
                } else {
                    None
                }
            },
        }
    }
}

/// The address a Create transaction installs its contract at.
pub open spec fn contract_address_sp(caller: Seq<u8>, nonce: nat) -> Seq<u8> {
    keccak_of(crate::rlp::enc_list(crate::rlp::enc_bytes(caller)
        + crate::types::enc_nat(nonce))).skip(12)
}

/// One wire log's fields, pinned from its source log and position.
pub open spec fn rpc_log_shape_sp(
    l: RpcLog,
    src: crate::types::LogV,
    h: Seq<u8>,
    bh: Seq<u8>,
    bn: nat,
    ti: nat,
    li: nat,
) -> bool {
    &&& l.log_index@ == hex_of_nat(li)
    &&& l.transaction_index@ == hex_of_nat(ti)
    &&& l.transaction_hash@ == seq![48u8, 120u8] + hex_of_bytes(h)
    &&& l.block_hash@ == seq![48u8, 120u8] + hex_of_bytes(bh)
    &&& l.block_number@ == hex_of_nat(bn)
    &&& l.data@ == seq![48u8, 120u8] + hex_of_bytes(src.data)
    &&& l.topics@.len() == src.topics.len()
    &&& (forall|q: int| 0 <= q < l.topics@.len()
        ==> (#[trigger] l.topics@[q])@ == seq![48u8, 120u8] + hex_of_bytes(src.topics[q]))
}

/// A whole wire log list, each at its position.
pub open spec fn rpc_logs_shape_sp(
    ls: Seq<RpcLog>,
    src: Seq<crate::types::LogV>,
    h: Seq<u8>,
    bh: Seq<u8>,
    bn: nat,
    ti: nat,
) -> bool {
    &&& ls.len() == src.len()
    &&& (forall|k: int| 0 <= k < ls.len()
        ==> rpc_log_shape_sp(#[trigger] ls[k], src[k], h, bh, bn, ti, k as nat))
}

/// Everything a receipt response needs to be indexed: the receipt,
/// the transaction, the block it landed in, its position there, the
/// gas sums, and — for a Create — a recoverable sender.
pub open spec fn receipt_response_ok_sp(st: MinerState, h: Seq<u8>) -> bool {
    &&& st.receipt_map().contains_key(h)
    &&& st.tx_map().contains_key(h)
    &&& st.tx_block_map().contains_key(h)
    &&& crate::chain::block_by_hash_sp(st, st.tx_block_map()[h]) is Some
    &&& tx_index_sp(crate::chain::block_by_hash_sp(st, st.tx_block_map()[h])->0, h)
        is Some
    &&& ({
        let b = crate::chain::block_by_hash_sp(st, st.tx_block_map()[h])->0;
        let i = tx_index_sp(b, h)->0;
        &&& cumulative_gas_sp(st, b.transactions, i) is Some
        &&& cumulative_gas_sp(st, b.transactions, i)->0 < crate::u256::u256_bound()
    })
    &&& (st.tx_map()[h].action is Create ==> crate::crypto::tx_caller_sp(
        st.tx_map()[h]) is Some)
}

/// The gas the block spent up to and including position `idx`,
/// read from the receipt index.
#[verifier::rlimit(100)]
#[verifier::spinoff_prover]
#[verifier::loop_isolation(false)]
fn cumulative_gas(st: &MinerState, block: &crate::types::Block, idx: usize) -> (r: Result<
    U256,
    Error,
>)
    requires
        st.wf(),
        idx < block.transactions@.len(),
    ensures
        r is Ok <==> cumulative_gas_sp(*st, block@.transactions, idx as int) is Some
            && cumulative_gas_sp(*st, block@.transactions, idx as int)->0
                < crate::u256::u256_bound(),
        r is Ok ==> r->Ok_0.val() == cumulative_gas_sp(
            *st,
            block@.transactions,
            idx as int,
        )->0,
        r is Err ==> r->Err_0 == Error::NotFound,
{
    let n = block.transactions.len();
    let mut cumulative = U256::zero();
    let mut k: usize = 0;
    proof {
        assert(cumulative_gas_sp(*st, block@.transactions, -1) == Some(0nat));
    }
    while k <= idx
        invariant
            k <= idx + 1,
            cumulative_gas_sp(*st, block@.transactions, k - 1) == Some(cumulative.val()),
        decreases idx + 1 - k,
    {
        let h2 = block.transactions[k].hash();
        let rc2 = match st.get_receipt_by_transaction_hash(&h2) {
            Ok(v) => v,
            Err(e) => {
                proof {
                    lemma_cumulative_none_extends(*st, block@.transactions, k as int,
                        idx as int);
                }
                return Err(Error::NotFound);
            },
        };
        cumulative = match cumulative.checked_add(&rc2.used_gas) {
            Some(v) => v,
            None => {
                proof {
                    lemma_cumulative_mono(*st, block@.transactions, k as int, idx as int);
                }
                return Err(Error::NotFound);
            },
        };
        k = k + 1;
    }
    proof {
        cumulative.lemma_val_bound();
    }
    Ok(cumulative)
}

/// A missing receipt refuses every longer sum.
proof fn lemma_cumulative_none_extends(
    st: MinerState,
    txs: Seq<crate::types::TransactionV>,
    k: int,
    upto: int,
)
    requires
        0 <= k <= upto < txs.len(),
        cumulative_gas_sp(st, txs, k) is None,
    ensures
        cumulative_gas_sp(st, txs, upto) is None,
    decreases upto - k,
{
    if k < upto {
        lemma_cumulative_none_extends(st, txs, k + 1, upto);
    }
}

/// The sums only grow with the position.
proof fn lemma_cumulative_mono(
    st: MinerState,
    txs: Seq<crate::types::TransactionV>,
    k: int,
    upto: int,
)
    requires
        0 <= k <= upto < txs.len(),
        cumulative_gas_sp(st, txs, k) is Some,
    ensures
        cumulative_gas_sp(st, txs, upto) is None || cumulative_gas_sp(st, txs, upto)->0
            >= cumulative_gas_sp(st, txs, k)->0,
    decreases upto - k,
{
    if k < upto {
        if cumulative_gas_sp(st, txs, k + 1) is Some {
            lemma_cumulative_mono(st, txs, k + 1, upto);
        } else {
            lemma_cumulative_none_extends(st, txs, k + 1, upto);
        }
    }
}

/// The wire logs of one receipt, each at its position.
#[verifier::rlimit(100)]
#[verifier::spinoff_prover]
fn receipt_wire_logs(
    receipt: &crate::types::Receipt,
    tx_hash: &Vec<u8>,
    idx: usize,
    bh: &Vec<u8>,
    number: u64,
) -> (r: Vec<RpcLog>)
    ensures
        rpc_logs_shape_sp(
            Seq::new(r@.len(), |k: int| r@[k]),
            receipt@.logs,
            tx_hash@,
            bh@,
            number as nat,
            idx as nat,
        ),
{
    let mut logs: Vec<RpcLog> = Vec::new();
    let mut q: usize = 0;
    while q < receipt.logs.len()
        invariant
            q <= receipt.logs@.len(),
            logs@.len() == q,
            forall|k2: int| 0 <= k2 < q ==> rpc_log_shape_sp(
                #[trigger] logs@[k2],
                receipt@.logs[k2],
                tx_hash@,
                bh@,
                number as nat,
                idx as nat,
                k2 as nat,
            ),
        decreases receipt.logs@.len() - q,
    {
        let one = to_rpc_log(&receipt.logs[q], q, tx_hash, idx, bh, number);
        logs.push(one);
        q = q + 1;
    }
    proof {
        assert(Seq::new(logs@.len(), |k: int| logs@[k]) =~= logs@);
    }
    logs
}

/// Assemble a receipt response: every field of the wire object,
/// fixed from the indices. Succeeds exactly when everything the
/// response needs is indexed.
#[verifier::rlimit(100)]
#[verifier::spinoff_prover]
pub fn to_rpc_receipt(st: &MinerState, tx_hash: &Vec<u8>) -> (r: Result<RpcReceipt, Error>)
    requires
        st.wf(),
    ensures
        r is Ok <==> receipt_response_ok_sp(*st, tx_hash@),
        r is Ok ==> ({
            let h = tx_hash@;
            let bh = st.tx_block_map()[h];
            let b = crate::chain::block_by_hash_sp(*st, bh)->0;
            let i = tx_index_sp(b, h)->0;
            let rc = st.receipt_map()[h];
            let t = st.tx_map()[h];
            let out = r->Ok_0;
            &&& out.transaction_hash@ == seq![48u8, 120u8] + hex_of_bytes(h)
            &&& out.transaction_index@ == hex_of_nat(i as nat)
            &&& out.block_hash@ == seq![48u8, 120u8] + hex_of_bytes(bh)
            &&& out.block_number@ == hex_of_nat(b.header.number)
            &&& out.cumulative_gas_used@ == hex_of_nat(cumulative_gas_sp(
                *st,
                b.transactions,
                i,
            )->0)
            &&& out.gas_used@ == hex_of_nat(rc.used_gas)
            &&& (match t.action {
                crate::types::ActionV::Create => out.contract_address matches Some(a)
                    && a@ == seq![48u8, 120u8] + hex_of_bytes(contract_address_sp(
                    crate::crypto::tx_caller_sp(t)->0,
                    t.nonce,
                )),
                crate::types::ActionV::Call(x) => out.contract_address is None,
            })
            &&& rpc_logs_shape_sp(
                Seq::new(out.logs@.len(), |k: int| out.logs@[k]),
                rc.logs,
                h,
                bh,
                b.header.number,
                i as nat,
            )
        }),
        r is Err ==> r->Err_0 == Error::NotFound,
{
    let receipt = match st.get_receipt_by_transaction_hash(tx_hash) {
        Ok(v) => v,
        Err(e) => {
            return Err(Error::NotFound);
        },
    };
    let tx = match st.get_transaction_by_hash(tx_hash) {
        Ok(v) => v,
        Err(e) => {
            return Err(Error::NotFound);
        },
    };
    let bh = match st.get_transaction_block_hash_by_hash(tx_hash) {
        Ok(v) => v,
        Err(e) => {
            return Err(Error::NotFound);
        },
    };
    let block = match st.get_block_by_hash(&bh) {
        Ok(v) => v,
        Err(e) => {
            return Err(Error::NotFound);
        },
    };
    let idx = match find_tx_index(&block, tx_hash) {
        Some(i) => i,
        None => {
            return Err(Error::NotFound);
        },
    };
    let cumulative = match cumulative_gas(st, &block, idx) {
        Ok(v) => v,
        Err(e) => {
            return Err(Error::NotFound);
        },
    };
    // The installed contract's address, for a Create.
    let contract_address = match &tx.action {
        TransactionAction::Create => {
            let caller = match tx.caller() {
                Some(c) => c,
                None => {
                    return Err(Error::NotFound);
                },
            };
            let mut p: Vec<u8> = Vec::new();
            crate::rlp::append_bytes(&mut p, caller.as_slice());
            crate::types::append_u256(&mut p, &tx.nonce);
            let e = crate::rlp::wrap_list(p.as_slice());
            let hsh = crate::crypto::keccak(e.as_slice());
            let a = crate::rlp::copy_range(hsh.as_slice(), 12, 20);
            proof {
                assert(p@ =~= crate::rlp::enc_bytes(caller@)
                    + crate::types::enc_nat(tx@.nonce));
                assert(a@ =~= hsh@.skip(12));
            }
            Some(bytes_to_hex(&a))
        },
        TransactionAction::Call(x) => None,
    };
    let logs = receipt_wire_logs(&receipt, tx_hash, idx, &bh, block.header.number);
    Ok(RpcReceipt {
        transaction_hash: bytes_to_hex(tx_hash),
        transaction_index: u64_to_hex(idx as u64),
        block_hash: bytes_to_hex(&bh),
        block_number: u64_to_hex(block.header.number),
        cumulative_gas_used: u256_to_hex(&cumulative),
        gas_used: u256_to_hex(&receipt.used_gas),
        contract_address,
        logs,
    })
}


/// A block as the wire shows it, with its body as hashes.
pub struct RpcBlock {
    pub number: Vec<u8>,
    pub hash: Vec<u8>,
    pub parent_hash: Vec<u8>,
    pub nonce: Vec<u8>,
    pub sha3_uncles: Vec<u8>,
    pub logs_bloom: Vec<u8>,
    pub transactions_root: Vec<u8>,
    pub state_root: Vec<u8>,
    pub receipts_root: Vec<u8>,
    pub miner: Vec<u8>,
    pub difficulty: Vec<u8>,
    pub total_difficulty: Vec<u8>,
    pub extra_data: Vec<u8>,
    pub size: Vec<u8>,
    pub gas_limit: Vec<u8>,
    pub gas_used: Vec<u8>,
    pub timestamp: Vec<u8>,
    pub transaction_hashes: Vec<Vec<u8>>,
    pub uncles: Vec<Vec<u8>>,
}

/// Format a block for the wire: every header field in hex, the
/// size as the header serialization's length, the body as the
/// transactions' hashes, the ommers as theirs.
#[verifier::rlimit(100)]
#[verifier::spinoff_prover]
pub fn to_rpc_block(block: &crate::types::Block, total_difficulty: &U256) -> (r: RpcBlock)
    ensures
        r.number@ == hex_of_nat(block@.header.number),
        r.hash@ == seq![48u8, 120u8] + hex_of_bytes(header_hash_sp(block@.header)),
        r.parent_hash@ == seq![48u8, 120u8] + hex_of_bytes(block@.header.parent_hash),
        r.nonce@ == seq![48u8, 120u8] + hex_of_bytes(block@.header.nonce),
        r.sha3_uncles@ == seq![48u8, 120u8] + hex_of_bytes(block@.header.ommers_hash),
        r.logs_bloom@ == seq![48u8, 120u8] + hex_of_bytes(block@.header.logs_bloom),
        r.transactions_root@ == seq![48u8, 120u8] + hex_of_bytes(
            block@.header.transactions_root),
        r.state_root@ == seq![48u8, 120u8] + hex_of_bytes(block@.header.state_root),
        r.receipts_root@ == seq![48u8, 120u8] + hex_of_bytes(block@.header.receipts_root),
        r.miner@ == seq![48u8, 120u8] + hex_of_bytes(block@.header.beneficiary),
        r.difficulty@ == hex_of_nat(block@.header.difficulty),
        r.total_difficulty@ == hex_of_nat(total_difficulty.val()),
        r.extra_data@ == seq![48u8, 120u8] + hex_of_bytes(block@.header.extra_data),
        r.size@ == hex_of_nat(crate::types::header_rlp_sp(block@.header).len()),
        r.gas_limit@ == hex_of_nat(block@.header.gas_limit),
        r.gas_used@ == hex_of_nat(block@.header.gas_used),
        r.timestamp@ == hex_of_nat(block@.header.timestamp),
        r.transaction_hashes@.len() == block@.transactions.len(),
        forall|i: int| 0 <= i < r.transaction_hashes@.len()
            ==> (#[trigger] r.transaction_hashes@[i])@ == seq![48u8, 120u8]
                + hex_of_bytes(crate::crypto::tx_hash_sp(block@.transactions[i])),
        r.uncles@.len() == block@.ommers.len(),
        forall|i: int| 0 <= i < r.uncles@.len()
            ==> (#[trigger] r.uncles@[i])@ == seq![48u8, 120u8] + hex_of_bytes(
            header_hash_sp(block@.ommers[i])),
{
    let h = block.header.hash();
    let encoded = block.header.rlp();
    let mut transaction_hashes: Vec<Vec<u8>> = Vec::new();
    let mut i: usize = 0;
    while i < block.transactions.len()
        invariant
            i <= block.transactions@.len(),
            transaction_hashes@.len() == i,
            forall|k: int| 0 <= k < i ==> (#[trigger] transaction_hashes@[k])@
                == seq![48u8, 120u8] + hex_of_bytes(crate::crypto::tx_hash_sp(
                block.transactions@[k]@)),
        decreases block.transactions@.len() - i,
    {
        let th = block.transactions[i].hash();
        transaction_hashes.push(bytes_to_hex(&th));
        i = i + 1;
    }
    let mut uncles: Vec<Vec<u8>> = Vec::new();
    let mut j: usize = 0;
    while j < block.ommers.len()
        invariant
            j <= block.ommers@.len(),
            uncles@.len() == j,
            forall|k: int| 0 <= k < j ==> (#[trigger] uncles@[k])@ == seq![48u8, 120u8]
                + hex_of_bytes(header_hash_sp(block.ommers@[k]@)),
        decreases block.ommers@.len() - j,
    {
        let uh = block.ommers[j].hash();
        uncles.push(bytes_to_hex(&uh));
        j = j + 1;
    }
    RpcBlock {
        number: u64_to_hex(block.header.number),
        hash: bytes_to_hex(&h),
        parent_hash: bytes_to_hex(&block.header.parent_hash),
        nonce: bytes_to_hex(&block.header.nonce),
        sha3_uncles: bytes_to_hex(&block.header.ommers_hash),
        logs_bloom: bytes_to_hex(&block.header.logs_bloom),
        transactions_root: bytes_to_hex(&block.header.transactions_root),
        state_root: bytes_to_hex(&block.header.state_root),
        receipts_root: bytes_to_hex(&block.header.receipts_root),
        miner: bytes_to_hex(&block.header.beneficiary),
        difficulty: u256_to_hex(&block.header.difficulty),
        total_difficulty: u256_to_hex(total_difficulty),
        extra_data: bytes_to_hex(&block.header.extra_data),
        size: u64_to_hex(encoded.len() as u64),
        gas_limit: u256_to_hex(&block.header.gas_limit),
        gas_used: u256_to_hex(&block.header.gas_used),
        timestamp: u64_to_hex(block.header.timestamp),
        transaction_hashes,
        uncles,
    }
}

} // verus!
