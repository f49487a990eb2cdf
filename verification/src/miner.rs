//! The block pipeline: genesis construction, per-round receipt
//! building, and assembly of the next block from the executed
//! transactions — with the header committing to the canonical
//! transaction, receipt and state roots.

use vstd::prelude::*;
use crate::bloom::{bloom_add_sp, bloom_or, bloom_or_sp, blooms_or_sp, zero_bloom, zero_bloom_sp};
use crate::chain::MinerState;
use crate::crypto::{be32_of, header_hash_sp, keccak, keccak_of};
use crate::error::Error;
use crate::rlp::{enc_bytes, enc_list, nat_min_be};
use crate::state::{account_rlp_sp, state_trie_map_sp, storage_trie_map_sp, AccountEntry, StorageEntry, WorldState};
use crate::trie::{trie_contents, trie_insert, trie_new, trie_root, trie_root_of, empty_trie_map};
use crate::types::{Block, Header, Log, LogV, Receipt, ReceiptV, Transaction, TransactionV, enc_nat, tx_rlp_sp, receipt_rlp_sp, wf_block, wf_bloom, wf_h256, wf_receipt, wf_tx};
use crate::u256::U256;
use crate::util::clone_bytes;

verus! {

/// The index-keyed map whose root is a block's transactions root.
pub open spec fn txs_trie_map_sp(ts: Seq<TransactionV>) -> Map<Seq<u8>, Seq<u8>>
    decreases ts.len(),
{
    if ts.len() == 0 {
        Map::empty()
    } else {
        txs_trie_map_sp(ts.drop_last()).insert(
            enc_nat((ts.len() - 1) as nat),
            tx_rlp_sp(ts.last()),
        )
    }
}

/// The index-keyed map whose root is a block's receipts root.
pub open spec fn receipts_trie_map_sp(rs: Seq<ReceiptV>) -> Map<Seq<u8>, Seq<u8>>
    decreases rs.len(),
{
    if rs.len() == 0 {
        Map::empty()
    } else {
        receipts_trie_map_sp(rs.drop_last()).insert(
            enc_nat((rs.len() - 1) as nat),
            receipt_rlp_sp(rs.last()),
        )
    }
}

/// An encoded list is never empty: it has a header byte.
proof fn lemma_enc_list_nonempty(p: Seq<u8>)
    ensures
        enc_list(p).len() >= 1,
{
}

proof fn lemma_enc_bytes_nonempty(b: Seq<u8>)
    ensures
        enc_bytes(b).len() >= 1,
{
}

/// The canonical transactions root.
pub fn transactions_root(txs: &Vec<Transaction>) -> (r: Vec<u8>)
    requires
        txs@.len() < 0x10000,
    ensures
        r@ == trie_root_of(txs_trie_map_sp(Seq::new(txs@.len(), |i: int| txs@[i]@))),
        r@.len() == 32,
{
    let ghost tv = Seq::new(txs@.len(), |i: int| txs@[i]@);
    let mut t = trie_new();
    let mut i: usize = 0;
    while i < txs.len()
        invariant
            tv == Seq::new(txs@.len(), |k: int| txs@[k]@),
            i <= txs@.len() < 0x10000,
            trie_contents(t) == txs_trie_map_sp(tv.take(i as int)),
        decreases txs@.len() - i,
    {
        let mut key: Vec<u8> = Vec::new();
        crate::types::append_u256(&mut key, &U256::from_u64(i as u64));
        let value = txs[i].rlp();
        proof {
            lemma_enc_list_nonempty(crate::types::tx_payload_sp(txs@[i as int]@));
            assert(key@ =~= Seq::<u8>::empty() + enc_nat(i as nat));
            assert(tv.take(i + 1).drop_last() =~= tv.take(i as int));
            assert(tv.take(i + 1).last() == tv[i as int]);
        }
        trie_insert(&mut t, key.as_slice(), value.as_slice());
        i = i + 1;
    }
    proof {
        assert(tv.take(tv.len() as int) =~= tv);
    }
    trie_root(&t)
}

/// The canonical receipts root.
pub fn receipts_root(rs: &Vec<Receipt>) -> (r: Vec<u8>)
    requires
        rs@.len() < 0x10000,
    ensures
        r@ == trie_root_of(receipts_trie_map_sp(Seq::new(rs@.len(), |i: int| rs@[i]@))),
        r@.len() == 32,
{
    let ghost rv = Seq::new(rs@.len(), |i: int| rs@[i]@);
    let mut t = trie_new();
    let mut i: usize = 0;
    while i < rs.len()
        invariant
            rv == Seq::new(rs@.len(), |k: int| rs@[k]@),
            i <= rs@.len() < 0x10000,
            trie_contents(t) == receipts_trie_map_sp(rv.take(i as int)),
        decreases rs@.len() - i,
    {
        let mut key: Vec<u8> = Vec::new();
        crate::types::append_u256(&mut key, &U256::from_u64(i as u64));
        let value = rs[i].rlp();
        proof {
            lemma_enc_list_nonempty(enc_bytes(rs@[i as int]@.state_root)
                + (enc_nat(rs@[i as int]@.used_gas) + (enc_bytes(rs@[i as int]@.logs_bloom)
                + enc_list(crate::types::logs_payload_sp(rs@[i as int]@.logs)))));
            assert(key@ =~= Seq::<u8>::empty() + enc_nat(i as nat));
            assert(rv.take(i + 1).drop_last() =~= rv.take(i as int));
            assert(rv.take(i + 1).last() == rv[i as int]);
        }
        trie_insert(&mut t, key.as_slice(), value.as_slice());
        i = i + 1;
    }
    proof {
        assert(rv.take(rv.len() as int) =~= rv);
    }
    trie_root(&t)
}

/// The world's canonical state root.
pub fn state_root(world: &WorldState) -> (r: Vec<u8>)
    requires
        world.wf(),
    ensures
        r@ == trie_root_of(state_trie_map_sp(world.accounts@)),
        r@.len() == 32,
{
    let mut t = trie_new();
    let mut i: usize = 0;
    while i < world.accounts.len()
        invariant
            world.wf(),
            i <= world.accounts@.len(),
            trie_contents(t) == state_trie_map_sp(world.accounts@.take(i as int)),
        decreases world.accounts@.len() - i,
    {
        let acct = &world.accounts[i];
        // The account's storage trie.
        let mut st = trie_new();
        let n = acct.storage.len();
        let mut j: usize = 0;
        while j < n
            invariant
                i < world.accounts@.len(),
                acct == world.accounts@[i as int],
                n == acct.storage@.len(),
                j <= n,
                trie_contents(st) == storage_trie_map_sp(acct.storage@.take(j as int)),
            decreases n - j,
        {
            let kb = acct.storage[j].key.to_be_bytes();
            let kh = keccak(kb.as_slice());
            let mut vb: Vec<u8> = Vec::new();
            let mb = acct.storage[j].value.to_min_be();
            crate::rlp::append_bytes(&mut vb, mb.as_slice());
            proof {
                acct.storage@[j as int].key.lemma_val_bound();
                crate::crypto::lemma_be32_of(kb@, acct.storage@[j as int].key.val());
                crate::rlp::lemma_min_be_canon(mb@);
                lemma_enc_bytes_nonempty(mb@);
                assert(vb@ =~= Seq::<u8>::empty() + enc_bytes(nat_min_be(
                    acct.storage@[j as int].value.val())));
                assert(acct.storage@.take(j + 1).drop_last() =~= acct.storage@.take(j as int));
                assert(acct.storage@.take(j + 1).last() == acct.storage@[j as int]);
            }
            trie_insert(&mut st, kh.as_slice(), vb.as_slice());
            j = j + 1;
        }
        proof {
            assert(acct.storage@.take(acct.storage@.len() as int) =~= acct.storage@);
        }
        let sroot = trie_root(&st);
        let chash = keccak(acct.code.as_slice());
        let mut pl: Vec<u8> = Vec::new();
        crate::types::append_u256(&mut pl, &acct.nonce);
        crate::types::append_u256(&mut pl, &acct.balance);
        crate::rlp::append_bytes(&mut pl, sroot.as_slice());
        crate::rlp::append_bytes(&mut pl, chash.as_slice());
        let value = crate::rlp::wrap_list(pl.as_slice());
        let kh = keccak(acct.address.as_slice());
        proof {
            assert(pl@ =~= enc_nat(acct.nonce.val()) + (enc_nat(acct.balance.val())
                + (enc_bytes(trie_root_of(storage_trie_map_sp(acct.storage@)))
                + enc_bytes(keccak_of(acct.code@)))));
            assert(value@ == account_rlp_sp(world.accounts@[i as int]));
            lemma_enc_list_nonempty(pl@);
            assert(world.accounts@.take(i + 1).drop_last() =~= world.accounts@.take(i as int));
            assert(world.accounts@.take(i + 1).last() == world.accounts@[i as int]);
        }
        trie_insert(&mut t, kh.as_slice(), value.as_slice());
        i = i + 1;
    }
    proof {
        assert(world.accounts@.take(world.accounts@.len() as int) =~= world.accounts@);
    }
    trie_root(&t)
}

/// The sum of the receipts' gas.
pub open spec fn gas_sum_sp(rs: Seq<ReceiptV>) -> nat
    decreases rs.len(),
{
    if rs.len() == 0 {
        0
    } else {
        gas_sum_sp(rs.drop_last()) + rs.last().used_gas
    }
}

/// Build the receipt of one executed transaction: its gas, logs, the
/// bloom of those logs, and the world root right after it.
pub fn build_receipt(used_gas: U256, logs: Vec<Log>, post_root: Vec<u8>) -> (r: Receipt)
    requires
        wf_h256(post_root@),
    ensures
        r@.used_gas == used_gas.val(),
        r@.state_root == post_root@,
        r@.logs == Seq::new(logs@.len(), |i: int| logs@[i]@),
        r@.logs_bloom == logs_bloom_all_sp(Seq::new(logs@.len(), |i: int| logs@[i]@)),
        wf_bloom(r@.logs_bloom),
{
    let ghost lv = Seq::new(logs@.len(), |i: int| logs@[i]@);
    let mut bloom = zero_bloom();
    let mut i: usize = 0;
    while i < logs.len()
        invariant
            lv == Seq::new(logs@.len(), |k: int| logs@[k]@),
            i <= logs@.len(),
            wf_bloom(bloom@),
            bloom@ == logs_bloom_all_sp(lv.take(i as int)),
        decreases logs@.len() - i,
    {
        crate::bloom::bloom_add(&mut bloom, logs[i].address.as_slice());
        let nt = logs[i].topics.len();
        let mut j: usize = 0;
        while j < nt
            invariant
                lv == Seq::new(logs@.len(), |k: int| logs@[k]@),
                i < logs@.len(),
                nt == logs@[i as int].topics@.len(),
                j <= nt,
                wf_bloom(bloom@),
                bloom@ == crate::bloom::bloom_topics_sp(
                    bloom_add_sp(logs_bloom_all_sp(lv.take(i as int)), lv[i as int].address),
                    lv[i as int].topics.take(j as int),
                ),
            decreases nt - j,
        {
            crate::bloom::bloom_add(&mut bloom, logs[i].topics[j].as_slice());
            proof {
                let ts = lv[i as int].topics;
                assert(ts.take(j + 1).drop_last() =~= ts.take(j as int));
                assert(ts.take(j + 1).last() == ts[j as int]);
            }
            j = j + 1;
        }
        proof {
            let ts = lv[i as int].topics;
            assert(ts.take(ts.len() as int) =~= ts);
            assert(lv.take(i + 1).drop_last() =~= lv.take(i as int));
            assert(lv.take(i + 1).last() == lv[i as int]);
        }
        i = i + 1;
    }
    proof {
        assert(lv.take(lv.len() as int) =~= lv);
    }
    let r = Receipt { state_root: post_root, used_gas, logs_bloom: bloom, logs };
    proof {
        assert(r@.logs =~= lv);
    }
    r
}

/// The bloom accumulated over a series of logs, in order.
pub open spec fn logs_bloom_all_sp(ls: Seq<LogV>) -> Seq<u8>
    decreases ls.len(),
{
    if ls.len() == 0 {
        zero_bloom_sp()
    } else {
        crate::bloom::bloom_topics_sp(
            bloom_add_sp(logs_bloom_all_sp(ls.drop_last()), ls.last().address),
            ls.last().topics,
        )
    }
}


/// A prefix of the gas sum never exceeds the whole.
proof fn lemma_gas_sum_mono(rs: Seq<ReceiptV>, k: int)
    requires
        0 <= k <= rs.len(),
    ensures
        gas_sum_sp(rs.take(k)) <= gas_sum_sp(rs),
    decreases rs.len() - k,
{
    if k == rs.len() {
        assert(rs.take(k) =~= rs);
    } else {
        assert(rs.take(k + 1).drop_last() =~= rs.take(k));
        lemma_gas_sum_mono(rs, k + 1);
    }
}

/// A vector of `n` zero bytes.
fn zero_bytes(n: usize) -> (r: Vec<u8>)
    ensures
        r@.len() == n,
        forall|i: int| 0 <= i < n ==> r@[i] == 0u8,
{
    let mut r: Vec<u8> = Vec::new();
    let mut i: usize = 0;
    while i < n
        invariant
            i <= n,
            r@.len() == i,
            forall|j: int| 0 <= j < i ==> r@[j] == 0u8,
        decreases n - i,
    {
        r.push(0);
        i = i + 1;
    }
    r
}

/// The header a round assembles, field by field: parented on the
/// current block, committing to the given roots, bloom and gas taken
/// from the receipts, difficulty zero, zeroed seal fields.
pub open spec fn assembled_header_sp(
    cur: crate::types::HeaderV,
    txv: Seq<TransactionV>,
    rv: Seq<ReceiptV>,
    beneficiary: Seq<u8>,
    gas_limit: nat,
    state_root: Seq<u8>,
    timestamp: nat,
) -> crate::types::HeaderV {
    crate::types::HeaderV {
        parent_hash: header_hash_sp(cur),
        ommers_hash: keccak_of(enc_list(Seq::empty())),
        beneficiary,
        state_root,
        transactions_root: trie_root_of(txs_trie_map_sp(txv)),
        receipts_root: trie_root_of(receipts_trie_map_sp(rv)),
        logs_bloom: blooms_or_sp(rv),
        difficulty: 0,
        number: (cur.number + 1) as nat,
        gas_limit,
        gas_used: gas_sum_sp(rv),
        timestamp,
        extra_data: Seq::new(32, |i: int| 0u8),
        mix_hash: Seq::new(32, |i: int| 0u8),
        nonce: Seq::new(8, |i: int| 0u8),
    }
}

/// Assemble the next block from the executed transactions and their
/// receipts. The header is exactly `assembled_header_sp`: bloom the
/// bitwise or of the receipts' blooms, gas their sum, parent the
/// current block. Refused exactly when the gas sum wraps.
#[verifier::rlimit(100)]
#[verifier::spinoff_prover]
pub fn assemble_next_block(
    current: &Block,
    transactions: Vec<Transaction>,
    receipts: &Vec<Receipt>,
    beneficiary: Vec<u8>,
    gas_limit: U256,
    state_root_bytes: Vec<u8>,
    timestamp: u64,
) -> (r: Result<Block, Error>)
    requires
        current@.header.number + 1 < 0x10000000000000000,
        transactions@.len() == receipts@.len(),
        transactions@.len() < 0x10000,
        forall|i: int| 0 <= i < transactions@.len() ==> wf_tx((#[trigger] transactions@[i])@),
        forall|i: int| 0 <= i < receipts@.len() ==> wf_receipt((#[trigger] receipts@[i])@),
        crate::types::wf_address(beneficiary@),
        wf_h256(state_root_bytes@),
    ensures
        r is Ok <==> gas_sum_sp(Seq::new(receipts@.len(), |i: int| receipts@[i]@))
            < crate::u256::u256_bound(),
        r is Ok ==> ({
            let b = r->Ok_0@;
            let rv = Seq::new(receipts@.len(), |i: int| receipts@[i]@);
            &&& wf_block(b)
            &&& b.header.parent_hash == header_hash_sp(current@.header)
            &&& b.header.number == current@.header.number + 1
            &&& b.header.logs_bloom == blooms_or_sp(rv)
            &&& b.header.gas_used == gas_sum_sp(rv)
            &&& b.header.gas_limit == gas_limit.val()
            &&& b.header.beneficiary == beneficiary@
            &&& b.header.difficulty == 0
            &&& b.header.timestamp == timestamp
            &&& b.header.state_root == state_root_bytes@
            &&& b.header.transactions_root == trie_root_of(txs_trie_map_sp(b.transactions))
            &&& b.header.receipts_root == trie_root_of(receipts_trie_map_sp(rv))
            &&& b.transactions == Seq::new(transactions@.len(), |i: int| transactions@[i]@)
            &&& b.ommers.len() == 0
            &&& b.header == assembled_header_sp(
                current@.header,
                b.transactions,
                rv,
                beneficiary@,
                gas_limit.val(),
                state_root_bytes@,
                timestamp as nat,
            )
        }),
{
    let ghost rv = Seq::new(receipts@.len(), |i: int| receipts@[i]@);
    // Bloom: or of the receipts' blooms.
    let mut bloom = zero_bloom();
    let mut i: usize = 0;
    while i < receipts.len()
        invariant
            rv == Seq::new(receipts@.len(), |k: int| receipts@[k]@),
            forall|k: int| 0 <= k < receipts@.len()
                ==> wf_receipt((#[trigger] receipts@[k])@),
            i <= receipts@.len(),
            wf_bloom(bloom@),
            bloom@ == blooms_or_sp(rv.take(i as int)),
        decreases receipts@.len() - i,
    {
        proof {
            assert(wf_receipt(receipts@[i as int]@));
        }
        bloom = bloom_or(&bloom, &receipts[i].logs_bloom);
        proof {
            assert(rv.take(i + 1).drop_last() =~= rv.take(i as int));
            assert(rv.take(i + 1).last() == rv[i as int]);
        }
        i = i + 1;
    }
    // Gas: sum of the receipts' gas.
    let mut gas_used = U256::zero();
    let mut j: usize = 0;
    while j < receipts.len()
        invariant
            rv == Seq::new(receipts@.len(), |k: int| receipts@[k]@),
            j <= receipts@.len(),
            gas_used.val() == gas_sum_sp(rv.take(j as int)),
        decreases receipts@.len() - j,
    {
        proof {
            assert(rv.take(j + 1).drop_last() =~= rv.take(j as int));
            assert(rv.take(j + 1).last() == rv[j as int]);
        }
        gas_used = match gas_used.checked_add(&receipts[j].used_gas) {
            Some(g) => g,
            None => {
                proof {
                    lemma_gas_sum_mono(rv, j + 1);
                }
                return Err(Error::InvalidParams);
            },
        };
        j = j + 1;
    }
    proof {
        assert(rv.take(rv.len() as int) =~= rv);
        gas_used.lemma_val_bound();
    }
    let txs_root = transactions_root(&transactions);
    let rcpt_root = receipts_root(receipts);
    let parent_hash = current.header.hash();
    let empty_payload: Vec<u8> = Vec::new();
    let empty_list = crate::rlp::wrap_list(empty_payload.as_slice());
    let ommers_hash = keccak(empty_list.as_slice());
    proof {
        assert(empty_payload@ =~= Seq::<u8>::empty());
    }
    let header = Header {
        parent_hash,
        ommers_hash,
        beneficiary,
        state_root: state_root_bytes,
        transactions_root: txs_root,
        receipts_root: rcpt_root,
        logs_bloom: bloom,
        difficulty: U256::zero(),
        number: current.header.number + 1,
        gas_limit,
        gas_used,
        timestamp,
        extra_data: zero_bytes(32),
        mix_hash: zero_bytes(32),
        nonce: zero_bytes(8),
    };
    let b = Block { header, transactions, ommers: Vec::new() };
    proof {
        assert(b@.transactions =~= Seq::new(b.transactions@.len(), |k: int|
            b.transactions@[k]@));
        assert(b@.ommers.len() == 0);
        assert(b@.header.extra_data =~= Seq::new(32, |i: int| 0u8));
        assert(b@.header.mix_hash =~= Seq::new(32, |i: int| 0u8));
        assert(b@.header.nonce =~= Seq::new(8, |i: int| 0u8));
        assert(b@.header == assembled_header_sp(
            current@.header,
            b@.transactions,
            rv,
            b@.header.beneficiary,
            gas_limit.val(),
            b@.header.state_root,
            timestamp as nat,
        ));
    }
    Ok(b)
}

/// The balance injections the configured genesis accounts ask for.
pub open spec fn genesis_changes_sp(accounts: Seq<(Vec<u8>, U256)>) -> Seq<
    crate::state::ChangeV,
> {
    Seq::new(accounts.len(), |i: int| crate::state::ChangeV::IncreaseBalance {
        address: crate::crypto::address_of_secret_sp(accounts[i].0@),
        amount: accounts[i].1.val(),
    })
}

/// Build the genesis state: credit every configured account, commit
/// the world root into the genesis header, open the chain store, and
/// register the signing keys.
pub fn make_state(genesis_accounts: Vec<(Vec<u8>, U256)>, timestamp: u64) -> (r: Result<
    MinerState,
    Error,
>)
    requires
        forall|i: int| 0 <= i < genesis_accounts@.len()
            ==> (#[trigger] genesis_accounts@[i]).0@.len() == 32,
    ensures
        r is Ok <==> (forall|i: int| 0 <= i < genesis_accounts@.len()
            ==> crate::crypto::sec_key_ok((#[trigger] genesis_accounts@[i]).0@))
            && crate::state::apply_changes_m(
            Map::empty(),
            genesis_changes_sp(genesis_accounts@),
        ) is Some,
        r is Ok ==> ({
            let st = r->Ok_0;
            &&& st.wf()
            &&& st.blocks@.len() == 1
            &&& st.blocks@[0]@.header.number == 0
            &&& st.blocks@[0]@.transactions.len() == 0
            &&& st.blocks@[0]@.header.timestamp == timestamp
            &&& st.blocks@[0]@.header.parent_hash == Seq::new(32, |i: int| 0u8)
            &&& Some(st.world@) == crate::state::apply_changes_m(
                Map::empty(),
                genesis_changes_sp(genesis_accounts@),
            )
            &&& st.blocks@[0]@.header.state_root == trie_root_of(state_trie_map_sp(
                st.world.accounts@))
            &&& st.accounts@.len() == genesis_accounts@.len()
            &&& forall|i: int| 0 <= i < genesis_accounts@.len()
                ==> (#[trigger] st.accounts@[i])@ == genesis_accounts@[i].0@
        }),
{
    let ghost cs = genesis_changes_sp(genesis_accounts@);
    let mut changes: Vec<crate::state::AccountChange> = Vec::new();
    let mut i: usize = 0;
    while i < genesis_accounts.len()
        invariant
            cs == genesis_changes_sp(genesis_accounts@),
            forall|k: int| 0 <= k < genesis_accounts@.len()
                ==> (#[trigger] genesis_accounts@[k]).0@.len() == 32,
            i <= genesis_accounts@.len(),
            changes@.len() == i,
            forall|k: int| 0 <= k < i ==> (#[trigger] changes@[k])@ == cs[k]
                && crate::state::wf_change(changes@[k]@),
            forall|k: int| 0 <= k < i
                ==> crate::crypto::sec_key_ok((#[trigger] genesis_accounts@[k]).0@),
        decreases genesis_accounts@.len() - i,
    {
        let address = match crate::crypto::address_of_secret(
            &genesis_accounts[i].0.as_slice(),
        ) {
            Some(a) => a,
            None => {
                proof {
                    assert(!crate::crypto::sec_key_ok(genesis_accounts@[i as int].0@));
                }
                return Err(Error::ECDSAError);
            },
        };
        changes.push(crate::state::AccountChange::IncreaseBalance {
            address,
            amount: genesis_accounts[i].1,
        });
        i = i + 1;
    }
    let mut world = WorldState::empty();
    proof {
        assert(crate::state::changes_seq(changes@) =~= cs);
    }
    match world.transit(&changes) {
        Ok(u) => {
        },
        Err(e) => {
            return Err(Error::InvalidParams);
        },
    }
    let root = state_root(&world);
    let empty_root = {
        let t = trie_new();
        trie_root(&t)
    };
    let header = Header {
        parent_hash: zero_bytes(32),
        ommers_hash: clone_bytes(&empty_root),
        beneficiary: zero_bytes(20),
        state_root: root,
        transactions_root: clone_bytes(&empty_root),
        receipts_root: empty_root,
        logs_bloom: zero_bloom(),
        difficulty: U256::zero(),
        number: 0,
        gas_limit: U256::zero(),
        gas_used: U256::zero(),
        timestamp,
        extra_data: zero_bytes(32),
        mix_hash: zero_bytes(32),
        nonce: zero_bytes(8),
    };
    let genesis = Block { header, transactions: Vec::new(), ommers: Vec::new() };
    let ghost wsnap = world;
    proof {
        assert(genesis@.header.parent_hash =~= Seq::new(32, |i: int| 0u8));
    }
    let mut st = MinerState::new(genesis, world);
    let mut k: usize = 0;
    while k < genesis_accounts.len()
        invariant
            st.wf(),
            k <= genesis_accounts@.len(),
            st.accounts@.len() == k,
            forall|q: int| 0 <= q < k
                ==> (#[trigger] st.accounts@[q])@ == genesis_accounts@[q].0@,
            st.world == wsnap,
            st.blocks@.len() == 1,
            st.blocks@[0]@.header.number == 0,
            st.blocks@[0]@.transactions.len() == 0,
            st.blocks@[0]@.header.timestamp == timestamp,
            st.blocks@[0]@.header.parent_hash == Seq::new(32, |i: int| 0u8),
            st.blocks@[0]@.header.state_root == trie_root_of(state_trie_map_sp(
                wsnap.accounts@)),
        decreases genesis_accounts@.len() - k,
    {
        st.append_account(clone_bytes(&genesis_accounts[k].0));
        k = k + 1;
    }
    Ok(st)
}

/// The receipt index after a round: each transaction's hash bound to
/// its receipt, in order.
pub open spec fn receipts_fold(
    m: Map<Seq<u8>, ReceiptV>,
    txv: Seq<TransactionV>,
    rv: Seq<ReceiptV>,
) -> Map<Seq<u8>, ReceiptV>
    decreases txv.len(),
{
    if txv.len() == 0 || rv.len() == 0 {
        m
    } else {
        receipts_fold(m, txv.drop_last(), rv.drop_last()).insert(
            crate::crypto::tx_hash_sp(txv.last()),
            rv.last(),
        )
    }
}

/// The status index after a round.
pub open spec fn statuses_fold(
    m: Map<Seq<u8>, bool>,
    txv: Seq<TransactionV>,
    sv: Seq<bool>,
) -> Map<Seq<u8>, bool>
    decreases txv.len(),
{
    if txv.len() == 0 || sv.len() == 0 {
        m
    } else {
        statuses_fold(m, txv.drop_last(), sv.drop_last()).insert(
            crate::crypto::tx_hash_sp(txv.last()),
            sv.last(),
        )
    }
}

/// The header a round over this chain commits, as a function of the
/// inputs alone.
pub open spec fn mined_header_sp(
    st: MinerState,
    txv: Seq<TransactionV>,
    rv: Seq<ReceiptV>,
    beneficiary: Seq<u8>,
    gas_limit: nat,
    timestamp: nat,
) -> crate::types::HeaderV {
    assembled_header_sp(
        st.blocks@.last()@.header,
        txv,
        rv,
        beneficiary,
        gas_limit,
        trie_root_of(state_trie_map_sp(st.world.accounts@)),
        timestamp,
    )
}

/// One mining round, after execution: record each transaction's
/// receipt and status, assemble the next block over the current
/// world root, and append it. Succeeds exactly when the gas sum fits
/// and the assembled header's hash is fresh; the receipts, statuses
/// and block bindings of every mined transaction are then indexed.
#[verifier::rlimit(100)]
#[verifier::spinoff_prover]
pub fn mine_one_with(
    chain: &mut MinerState,
    transactions: Vec<Transaction>,
    receipts: Vec<Receipt>,
    statuses: Vec<bool>,
    beneficiary: Vec<u8>,
    gas_limit: U256,
    timestamp: u64,
) -> (r: Result<Vec<u8>, Error>)
    requires
        old(chain).wf(),
        old(chain).blocks@.len() < 0xffffffff,
        transactions@.len() == receipts@.len(),
        statuses@.len() == receipts@.len(),
        transactions@.len() < 0x10000,
        forall|i: int| 0 <= i < transactions@.len() ==> wf_tx((#[trigger] transactions@[i])@),
        forall|i: int| 0 <= i < receipts@.len() ==> wf_receipt((#[trigger] receipts@[i])@),
        crate::types::wf_address(beneficiary@),
    ensures
        final(chain).wf(),
        ({
            let txv = Seq::new(transactions@.len(), |i: int| transactions@[i]@);
            let rv = Seq::new(receipts@.len(), |i: int| receipts@[i]@);
            let hh = header_hash_sp(mined_header_sp(
                *old(chain),
                txv,
                rv,
                beneficiary@,
                gas_limit.val(),
                timestamp as nat,
            ));
            &&& (r is Ok <==> gas_sum_sp(rv) < crate::u256::u256_bound() && (forall|i: int|
                0 <= i < old(chain).block_hashes@.len()
                    ==> (#[trigger] old(chain).block_hashes@[i])@ != hh))
            &&& (r is Ok ==> {
                let b = final(chain).blocks@.last()@;
                &&& r->Ok_0@ == hh
                &&& final(chain).blocks@.len() == old(chain).blocks@.len() + 1
                &&& b.header == mined_header_sp(*old(chain), txv, rv, beneficiary@,
                    gas_limit.val(), timestamp as nat)
                &&& b.header.parent_hash == header_hash_sp(
                    old(chain).blocks@.last()@.header)
                &&& b.header.logs_bloom == blooms_or_sp(rv)
                &&& b.header.gas_used == gas_sum_sp(rv)
                &&& b.header.state_root == trie_root_of(state_trie_map_sp(
                    old(chain).world.accounts@))
                &&& b.transactions == txv
                &&& final(chain).block_hashes@.last()@ == hh
                &&& final(chain).tx_block_map() == MinerState::tx_index_fold(
                    old(chain).tx_block_map(), txv, hh)
            })
            &&& final(chain).receipt_map() == receipts_fold(
                old(chain).receipt_map(),
                txv,
                rv,
            )
            &&& crate::assoc::pairs_map(final(chain).receipt_statuses@) == statuses_fold(
                crate::assoc::pairs_map(old(chain).receipt_statuses@),
                txv,
                statuses@,
            )
        }),
        final(chain).world == old(chain).world,
        final(chain).transaction_database@ == old(chain).transaction_database@,
        final(chain).pending_transaction_hashes@
            == old(chain).pending_transaction_hashes@,
        r is Err ==> final(chain).blocks@ == old(chain).blocks@,
{
    let ghost txv = Seq::new(transactions@.len(), |i: int| transactions@[i]@);
    let ghost rv = Seq::new(receipts@.len(), |i: int| receipts@[i]@);
    let current = chain.current_block();
    let mut i: usize = 0;
    while i < transactions.len()
        invariant
            chain.wf(),
            txv == Seq::new(transactions@.len(), |k: int| transactions@[k]@),
            rv == Seq::new(receipts@.len(), |k: int| receipts@[k]@),
            chain.blocks@ == old(chain).blocks@,
            chain.block_hashes@ == old(chain).block_hashes@,
            chain.total_difficulties@ == old(chain).total_difficulties@,
            chain.world_history@ == old(chain).world_history@,
            chain.world == old(chain).world,
            chain.transaction_database@ == old(chain).transaction_database@,
            chain.transaction_block_hashes@ == old(chain).transaction_block_hashes@,
            chain.pending_transaction_hashes@ == old(chain).pending_transaction_hashes@,
            chain.all_pending_transaction_hashes@
                == old(chain).all_pending_transaction_hashes@,
            chain.accounts@ == old(chain).accounts@,
            chain.address_database@ == old(chain).address_database@,
            transactions@.len() == receipts@.len(),
            statuses@.len() == receipts@.len(),
            i <= transactions@.len(),
            chain.receipt_map() == receipts_fold(
                old(chain).receipt_map(),
                txv.take(i as int),
                rv.take(i as int),
            ),
            crate::assoc::pairs_map(chain.receipt_statuses@) == statuses_fold(
                crate::assoc::pairs_map(old(chain).receipt_statuses@),
                txv.take(i as int),
                statuses@.take(i as int),
            ),
        decreases transactions@.len() - i,
    {
        let h = transactions[i].hash();
        let rc = receipts[i].duplicate();
        chain.insert_receipt(&h, rc);
        chain.set_receipt_status(&h, statuses[i]);
        proof {
            assert(txv.take(i + 1).drop_last() =~= txv.take(i as int));
            assert(rv.take(i + 1).drop_last() =~= rv.take(i as int));
            assert(statuses@.take(i + 1).drop_last() =~= statuses@.take(i as int));
            assert(txv.take(i + 1).last() == txv[i as int]);
            assert(rv.take(i + 1).last() == rv[i as int]);
            assert(statuses@.take(i + 1).last() == statuses@[i as int]);
        }
        i = i + 1;
    }
    proof {
        assert(txv.take(txv.len() as int) =~= txv);
        assert(rv.take(rv.len() as int) =~= rv);
        assert(statuses@.take(statuses@.len() as int) =~= statuses@);
    }
    let root = state_root(chain.stateful());
    let block = match assemble_next_block(
        &current,
        transactions,
        &receipts,
        beneficiary,
        gas_limit,
        root,
        timestamp,
    ) {
        Ok(b) => b,
        Err(e) => {
            return Err(Error::InvalidParams);
        },
    };
    proof {
        assert(block@.header == mined_header_sp(*old(chain), txv, rv,
            block@.header.beneficiary, gas_limit.val(), timestamp as nat));
        let n = old(chain).blocks@.len();
        assert(old(chain).blocks@[n - 1]@.header.number == n - 1);
        assert(old(chain).block_hashes@[n - 1]@ == header_hash_sp(
            old(chain).blocks@[n - 1]@.header));
        old(chain).total_difficulties@.last().lemma_val_bound();
    }
    match chain.append_block(block) {
        Ok(h) => Ok(h),
        Err(e) => Err(Error::InvalidParams),
    }
}

/// Record one executed transaction: commit its account changes,
/// build its receipt over the new world root, and index receipt and
/// status under the transaction's hash. Succeeds exactly when the
/// changes apply; a refused batch leaves the indices untouched.
pub fn record_execution(
    chain: &mut MinerState,
    tx: &Transaction,
    changes: &Vec<crate::state::AccountChange>,
    used_gas: U256,
    logs: Vec<Log>,
    status: bool,
) -> (r: Result<Receipt, Error>)
    requires
        old(chain).wf(),
        forall|i: int| 0 <= i < changes@.len()
            ==> crate::state::wf_change((#[trigger] changes@[i])@),
    ensures
        final(chain).wf(),
        r is Ok <==> crate::state::apply_changes_m(
            old(chain).world@,
            crate::state::changes_seq(changes@),
        ) is Some,
        r is Ok ==> Some(final(chain).world@) == crate::state::apply_changes_m(
            old(chain).world@,
            crate::state::changes_seq(changes@),
        ),
        r is Ok ==> ({
            let rc = r->Ok_0@;
            &&& rc.used_gas == used_gas.val()
            &&& rc.logs == Seq::new(logs@.len(), |i: int| logs@[i]@)
            &&& rc.state_root == trie_root_of(state_trie_map_sp(
                final(chain).world.accounts@))
            &&& final(chain).receipt_map() == old(chain).receipt_map().insert(
                crate::crypto::tx_hash_sp(tx@), rc)
            &&& crate::assoc::pairs_map(final(chain).receipt_statuses@)
                == crate::assoc::pairs_map(old(chain).receipt_statuses@).insert(
                crate::crypto::tx_hash_sp(tx@), status)
        }),
        final(chain).blocks@ == old(chain).blocks@,
        r is Err ==> final(chain).receipt_database@ == old(chain).receipt_database@
            && final(chain).receipt_statuses@ == old(chain).receipt_statuses@,
{
    match chain.stateful_mut().transit(changes) {
        Ok(u) => {
        },
        Err(e) => {
            return Err(Error::InvalidParams);
        },
    }
    let root = state_root(chain.stateful());
    let receipt = build_receipt(used_gas, logs, root);
    let h = tx.hash();
    let rc = receipt.duplicate();
    chain.insert_receipt(&h, rc);
    chain.set_receipt_status(&h, status);
    Ok(receipt)
}

} // verus!
