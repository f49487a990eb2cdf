//! The chain's value types: transactions, headers, blocks, receipts,
//! logs and accounts, with their canonical serial forms.
//!
//! Every type has a mathematical view; the serializers are specified
//! against those views, and the decoders return exactly what the view
//! of an encoded value was.

use vstd::prelude::*;
use crate::u256::U256;
use crate::rlp::{enc_bytes, enc_list, nat_min_be};

verus! {

pub open spec fn wf_address(a: Seq<u8>) -> bool {
    a.len() == 20
}

pub open spec fn wf_h256(h: Seq<u8>) -> bool {
    h.len() == 32
}

pub open spec fn wf_bloom(b: Seq<u8>) -> bool {
    b.len() == 256
}

pub open spec fn wf_h64(h: Seq<u8>) -> bool {
    h.len() == 8
}

/// Call a contract or account, or create a new one.
#[derive(Clone, Debug)]
pub enum TransactionAction {
    /// The 20-byte address called.
    Call(Vec<u8>),
    Create,
}

pub ghost enum ActionV {
    Call(Seq<u8>),
    Create,
}

impl View for TransactionAction {
    type V = ActionV;

    open spec fn view(&self) -> ActionV {
        match self {
            TransactionAction::Call(a) => ActionV::Call(a@),
            TransactionAction::Create => ActionV::Create,
        }
    }
}

/// A signed transaction.
#[derive(Clone, Debug)]
pub struct Transaction {
    pub nonce: U256,
    pub gas_price: U256,
    pub gas_limit: U256,
    pub action: TransactionAction,
    pub value: U256,
    pub input: Vec<u8>,
    pub v: u64,
    pub r: U256,
    pub s: U256,
}

pub ghost struct TransactionV {
    pub nonce: nat,
    pub gas_price: nat,
    pub gas_limit: nat,
    pub action: ActionV,
    pub value: nat,
    pub input: Seq<u8>,
    pub v: nat,
    pub r: nat,
    pub s: nat,
}

impl View for Transaction {
    type V = TransactionV;

    open spec fn view(&self) -> TransactionV {
        TransactionV {
            nonce: self.nonce.val(),
            gas_price: self.gas_price.val(),
            gas_limit: self.gas_limit.val(),
            action: self.action@,
            value: self.value.val(),
            input: self.input@,
            v: self.v as nat,
            r: self.r.val(),
            s: self.s.val(),
        }
    }
}

pub open spec fn wf_action(a: ActionV) -> bool {
    match a {
        ActionV::Call(addr) => wf_address(addr),
        ActionV::Create => true,
    }
}

pub open spec fn wf_tx(t: TransactionV) -> bool {
    &&& wf_action(t.action)
    &&& t.nonce < crate::u256::u256_bound()
    &&& t.gas_price < crate::u256::u256_bound()
    &&& t.gas_limit < crate::u256::u256_bound()
    &&& t.value < crate::u256::u256_bound()
    &&& t.r < crate::u256::u256_bound()
    &&& t.s < crate::u256::u256_bound()
    &&& t.v < 0x10000000000000000
    &&& t.input.len() < 0x100000000
}

/// A block header.
#[derive(Clone, Debug)]
pub struct Header {
    pub parent_hash: Vec<u8>,
    pub ommers_hash: Vec<u8>,
    pub beneficiary: Vec<u8>,
    pub state_root: Vec<u8>,
    pub transactions_root: Vec<u8>,
    pub receipts_root: Vec<u8>,
    pub logs_bloom: Vec<u8>,
    pub difficulty: U256,
    pub number: u64,
    pub gas_limit: U256,
    pub gas_used: U256,
    pub timestamp: u64,
    pub extra_data: Vec<u8>,
    pub mix_hash: Vec<u8>,
    pub nonce: Vec<u8>,
}

pub ghost struct HeaderV {
    pub parent_hash: Seq<u8>,
    pub ommers_hash: Seq<u8>,
    pub beneficiary: Seq<u8>,
    pub state_root: Seq<u8>,
    pub transactions_root: Seq<u8>,
    pub receipts_root: Seq<u8>,
    pub logs_bloom: Seq<u8>,
    pub difficulty: nat,
    pub number: nat,
    pub gas_limit: nat,
    pub gas_used: nat,
    pub timestamp: nat,
    pub extra_data: Seq<u8>,
    pub mix_hash: Seq<u8>,
    pub nonce: Seq<u8>,
}

impl View for Header {
    type V = HeaderV;

    open spec fn view(&self) -> HeaderV {
        HeaderV {
            parent_hash: self.parent_hash@,
            ommers_hash: self.ommers_hash@,
            beneficiary: self.beneficiary@,
            state_root: self.state_root@,
            transactions_root: self.transactions_root@,
            receipts_root: self.receipts_root@,
            logs_bloom: self.logs_bloom@,
            difficulty: self.difficulty.val(),
            number: self.number as nat,
            gas_limit: self.gas_limit.val(),
            gas_used: self.gas_used.val(),
            timestamp: self.timestamp as nat,
            extra_data: self.extra_data@,
            mix_hash: self.mix_hash@,
            nonce: self.nonce@,
        }
    }
}

pub open spec fn wf_header(h: HeaderV) -> bool {
    &&& wf_h256(h.parent_hash)
    &&& wf_h256(h.ommers_hash)
    &&& wf_address(h.beneficiary)
    &&& wf_h256(h.state_root)
    &&& wf_h256(h.transactions_root)
    &&& wf_h256(h.receipts_root)
    &&& wf_bloom(h.logs_bloom)
    &&& h.difficulty < crate::u256::u256_bound()
    &&& h.number < 0x10000000000000000
    &&& h.gas_limit < crate::u256::u256_bound()
    &&& h.gas_used < crate::u256::u256_bound()
    &&& h.timestamp < 0x10000000000000000
    &&& h.extra_data.len() < 56
    &&& wf_h256(h.mix_hash)
    &&& wf_h64(h.nonce)
}

/// One log emitted during execution.
#[derive(Clone, Debug)]
pub struct Log {
    pub address: Vec<u8>,
    pub topics: Vec<Vec<u8>>,
    pub data: Vec<u8>,
}

pub ghost struct LogV {
    pub address: Seq<u8>,
    pub topics: Seq<Seq<u8>>,
    pub data: Seq<u8>,
}

impl View for Log {
    type V = LogV;

    open spec fn view(&self) -> LogV {
        LogV {
            address: self.address@,
            topics: Seq::new(self.topics@.len(), |i: int| self.topics@[i]@),
            data: self.data@,
        }
    }
}

pub open spec fn wf_log(l: LogV) -> bool {
    &&& wf_address(l.address)
    &&& forall|i: int| 0 <= i < l.topics.len() ==> wf_h256(#[trigger] l.topics[i])
    &&& l.topics.len() < 256
    &&& l.data.len() < 0x10000000000000000
}

/// The record a mined transaction leaves behind.
#[derive(Clone, Debug)]
pub struct Receipt {
    pub state_root: Vec<u8>,
    pub used_gas: U256,
    pub logs_bloom: Vec<u8>,
    pub logs: Vec<Log>,
}

pub ghost struct ReceiptV {
    pub state_root: Seq<u8>,
    pub used_gas: nat,
    pub logs_bloom: Seq<u8>,
    pub logs: Seq<LogV>,
}

impl View for Receipt {
    type V = ReceiptV;

    open spec fn view(&self) -> ReceiptV {
        ReceiptV {
            state_root: self.state_root@,
            used_gas: self.used_gas.val(),
            logs_bloom: self.logs_bloom@,
            logs: Seq::new(self.logs@.len(), |i: int| self.logs@[i]@),
        }
    }
}

pub open spec fn wf_receipt(r: ReceiptV) -> bool {
    &&& wf_h256(r.state_root)
    &&& r.used_gas < crate::u256::u256_bound()
    &&& wf_bloom(r.logs_bloom)
    &&& forall|i: int| 0 <= i < r.logs.len() ==> wf_log(#[trigger] r.logs[i])
    &&& r.logs.len() < 0x10000
}

/// A block: header, body transactions, and ommer headers.
#[derive(Clone, Debug)]
pub struct Block {
    pub header: Header,
    pub transactions: Vec<Transaction>,
    pub ommers: Vec<Header>,
}

pub ghost struct BlockV {
    pub header: HeaderV,
    pub transactions: Seq<TransactionV>,
    pub ommers: Seq<HeaderV>,
}

impl View for Block {
    type V = BlockV;

    open spec fn view(&self) -> BlockV {
        BlockV {
            header: self.header@,
            transactions: Seq::new(self.transactions@.len(), |i: int| self.transactions@[i]@),
            ommers: Seq::new(self.ommers@.len(), |i: int| self.ommers@[i]@),
        }
    }
}

pub open spec fn wf_block(b: BlockV) -> bool {
    &&& wf_header(b.header)
    &&& forall|i: int| 0 <= i < b.transactions.len() ==> wf_tx(#[trigger] b.transactions[i])
    &&& b.transactions.len() < 0x10000
    &&& b.ommers.len() == 0
}

/// A header together with the cumulative difficulty to genesis.
#[derive(Clone, Debug)]
pub struct TotalHeader {
    pub header: Header,
    pub total_difficulty: U256,
}

/// The state of one account: what the world-state trie stores.
#[derive(Clone, Debug)]
pub struct Account {
    pub nonce: U256,
    pub balance: U256,
    pub storage_root: Vec<u8>,
    pub code_hash: Vec<u8>,
}

pub ghost struct AccountV {
    pub nonce: nat,
    pub balance: nat,
    pub storage_root: Seq<u8>,
    pub code_hash: Seq<u8>,
}

impl View for Account {
    type V = AccountV;

    open spec fn view(&self) -> AccountV {
        AccountV {
            nonce: self.nonce.val(),
            balance: self.balance.val(),
            storage_root: self.storage_root@,
            code_hash: self.code_hash@,
        }
    }
}

pub open spec fn wf_account(a: AccountV) -> bool {
    &&& a.nonce < crate::u256::u256_bound()
    &&& a.balance < crate::u256::u256_bound()
    &&& wf_h256(a.storage_root)
    &&& wf_h256(a.code_hash)
}

/// The encoding of an integer: its minimal big-endian digits.
pub open spec fn enc_nat(n: nat) -> Seq<u8> {
    enc_bytes(nat_min_be(n))
}

pub open spec fn enc_action(a: ActionV) -> Seq<u8> {
    match a {
        ActionV::Call(addr) => enc_bytes(addr),
        ActionV::Create => enc_bytes(Seq::empty()),
    }
}

/// The raw byte string a transaction's action field carries.
pub open spec fn enc_action_payload(a: ActionV) -> Seq<u8> {
    match a {
        ActionV::Call(addr) => addr,
        ActionV::Create => Seq::empty(),
    }
}

/// The nine fields of a signed transaction, in order.
pub open spec fn tx_payload_sp(t: TransactionV) -> Seq<u8> {
    let t8 = enc_nat(t.r) + enc_nat(t.s);
    let t7 = enc_nat(t.v) + t8;
    let t6 = enc_bytes(t.input) + t7;
    let t5 = enc_nat(t.value) + t6;
    let t4 = enc_action(t.action) + t5;
    let t3 = enc_nat(t.gas_limit) + t4;
    let t2 = enc_nat(t.gas_price) + t3;
    enc_nat(t.nonce) + t2
}

pub open spec fn tx_rlp_sp(t: TransactionV) -> Seq<u8> {
    enc_list(tx_payload_sp(t))
}

/// The six fields covered by the signature, in order.
pub open spec fn tx_signing_payload_sp(t: TransactionV) -> Seq<u8> {
    let t5 = enc_nat(t.value) + enc_bytes(t.input);
    let t4 = enc_action(t.action) + t5;
    let t3 = enc_nat(t.gas_limit) + t4;
    let t2 = enc_nat(t.gas_price) + t3;
    enc_nat(t.nonce) + t2
}

pub open spec fn tx_signing_rlp_sp(t: TransactionV) -> Seq<u8> {
    enc_list(tx_signing_payload_sp(t))
}

/// The tail of a header's fields, from the difficulty on.
pub open spec fn header_tail_sp(h: HeaderV) -> Seq<u8> {
    let t14 = enc_bytes(h.mix_hash) + enc_bytes(h.nonce);
    let t13 = enc_bytes(h.extra_data) + t14;
    let t12 = enc_nat(h.timestamp) + t13;
    let t11 = enc_nat(h.gas_used) + t12;
    let t10 = enc_nat(h.gas_limit) + t11;
    let t9 = enc_nat(h.number) + t10;
    enc_nat(h.difficulty) + t9
}

/// The fifteen fields of a header, in order.
pub open spec fn header_payload_sp(h: HeaderV) -> Seq<u8> {
    let t7 = enc_bytes(h.logs_bloom) + header_tail_sp(h);
    let t6 = enc_bytes(h.receipts_root) + t7;
    let t5 = enc_bytes(h.transactions_root) + t6;
    let t4 = enc_bytes(h.state_root) + t5;
    let t3 = enc_bytes(h.beneficiary) + t4;
    let t2 = enc_bytes(h.ommers_hash) + t3;
    enc_bytes(h.parent_hash) + t2
}

pub open spec fn header_rlp_sp(h: HeaderV) -> Seq<u8> {
    enc_list(header_payload_sp(h))
}

/// The topics of a log, encoded in order.
pub open spec fn topics_payload_sp(ts: Seq<Seq<u8>>) -> Seq<u8>
    decreases ts.len(),
{
    if ts.len() == 0 {
        Seq::empty()
    } else {
        topics_payload_sp(ts.drop_last()) + enc_bytes(ts.last())
    }
}

pub open spec fn log_rlp_sp(l: LogV) -> Seq<u8> {
    enc_list(enc_bytes(l.address) + (enc_list(topics_payload_sp(l.topics))
        + enc_bytes(l.data)))
}

pub open spec fn logs_payload_sp(ls: Seq<LogV>) -> Seq<u8>
    decreases ls.len(),
{
    if ls.len() == 0 {
        Seq::empty()
    } else {
        logs_payload_sp(ls.drop_last()) + log_rlp_sp(ls.last())
    }
}

pub open spec fn receipt_rlp_sp(r: ReceiptV) -> Seq<u8> {
    enc_list(enc_bytes(r.state_root) + (enc_nat(r.used_gas) + (enc_bytes(r.logs_bloom)
        + enc_list(logs_payload_sp(r.logs)))))
}

pub open spec fn txs_payload_sp(ts: Seq<TransactionV>) -> Seq<u8>
    decreases ts.len(),
{
    if ts.len() == 0 {
        Seq::empty()
    } else {
        txs_payload_sp(ts.drop_last()) + tx_rlp_sp(ts.last())
    }
}

pub open spec fn headers_payload_sp(hs: Seq<HeaderV>) -> Seq<u8>
    decreases hs.len(),
{
    if hs.len() == 0 {
        Seq::empty()
    } else {
        headers_payload_sp(hs.drop_last()) + header_rlp_sp(hs.last())
    }
}

pub open spec fn block_rlp_sp(b: BlockV) -> Seq<u8> {
    enc_list(header_rlp_sp(b.header) + (enc_list(txs_payload_sp(b.transactions))
        + enc_list(headers_payload_sp(b.ommers))))
}

/// Append the encoding of an integer field.
pub fn append_u256(out: &mut Vec<u8>, x: &U256)
    ensures
        final(out)@ == old(out)@ + enc_nat(x.val()),
{
    let b = x.to_min_be();
    proof {
        crate::rlp::lemma_min_be_canon(b@);
    }
    crate::rlp::append_bytes(out, b.as_slice());
}

/// Append the encoding of a 64-bit integer field.
pub fn append_u64f(out: &mut Vec<u8>, x: u64)
    ensures
        final(out)@ == old(out)@ + enc_nat(x as nat),
{
    let v = U256::from_u64(x);
    append_u256(out, &v);
}

impl Transaction {
    /// The canonical serialization.
    #[verifier::rlimit(100)]
    #[verifier::spinoff_prover]
    pub fn rlp(&self) -> (r: Vec<u8>)
        ensures
            r@ == tx_rlp_sp(self@),
    {
        let mut p: Vec<u8> = Vec::new();
        append_u256(&mut p, &self.nonce);
        append_u256(&mut p, &self.gas_price);
        append_u256(&mut p, &self.gas_limit);
        match &self.action {
            TransactionAction::Call(a) => crate::rlp::append_bytes(&mut p, a.as_slice()),
            TransactionAction::Create => {
                let e: Vec<u8> = Vec::new();
                crate::rlp::append_bytes(&mut p, e.as_slice());
                proof {
                    assert(e@ =~= Seq::<u8>::empty());
                }
            },
        }
        append_u256(&mut p, &self.value);
        crate::rlp::append_bytes(&mut p, self.input.as_slice());
        append_u64f(&mut p, self.v);
        append_u256(&mut p, &self.r);
        append_u256(&mut p, &self.s);
        proof {
            let t = self@;
            assert(Seq::<u8>::empty() + enc_nat(t.nonce) =~= enc_nat(t.nonce));
            crate::rlp::lemma_assoc9(
                enc_nat(t.nonce), enc_nat(t.gas_price), enc_nat(t.gas_limit),
                enc_action(t.action), enc_nat(t.value), enc_bytes(t.input), enc_nat(t.v),
                enc_nat(t.r), enc_nat(t.s));
            assert(p@ == tx_payload_sp(t));
        }
        crate::rlp::wrap_list(p.as_slice())
    }

    /// The serialization whose hash the sender signs.
    #[verifier::rlimit(100)]
    #[verifier::spinoff_prover]
    pub fn signing_rlp(&self) -> (r: Vec<u8>)
        ensures
            r@ == tx_signing_rlp_sp(self@),
    {
        let mut p: Vec<u8> = Vec::new();
        append_u256(&mut p, &self.nonce);
        append_u256(&mut p, &self.gas_price);
        append_u256(&mut p, &self.gas_limit);
        match &self.action {
            TransactionAction::Call(a) => crate::rlp::append_bytes(&mut p, a.as_slice()),
            TransactionAction::Create => {
                let e: Vec<u8> = Vec::new();
                crate::rlp::append_bytes(&mut p, e.as_slice());
                proof {
                    assert(e@ =~= Seq::<u8>::empty());
                }
            },
        }
        append_u256(&mut p, &self.value);
        crate::rlp::append_bytes(&mut p, self.input.as_slice());
        proof {
            let t = self@;
            assert(Seq::<u8>::empty() + enc_nat(t.nonce) =~= enc_nat(t.nonce));
            crate::rlp::lemma_assoc6(
                enc_nat(t.nonce), enc_nat(t.gas_price), enc_nat(t.gas_limit),
                enc_action(t.action), enc_nat(t.value), enc_bytes(t.input));
            assert(p@ == tx_signing_payload_sp(t));
        }
        crate::rlp::wrap_list(p.as_slice())
    }
}

impl Header {
    /// The canonical serialization; its hash is the block hash.
    #[verifier::rlimit(100)]
    #[verifier::spinoff_prover]
    pub fn rlp(&self) -> (r: Vec<u8>)
        ensures
            r@ == header_rlp_sp(self@),
    {
        let mut p: Vec<u8> = Vec::new();
        crate::rlp::append_bytes(&mut p, self.parent_hash.as_slice());
        crate::rlp::append_bytes(&mut p, self.ommers_hash.as_slice());
        crate::rlp::append_bytes(&mut p, self.beneficiary.as_slice());
        crate::rlp::append_bytes(&mut p, self.state_root.as_slice());
        crate::rlp::append_bytes(&mut p, self.transactions_root.as_slice());
        crate::rlp::append_bytes(&mut p, self.receipts_root.as_slice());
        crate::rlp::append_bytes(&mut p, self.logs_bloom.as_slice());
        append_u256(&mut p, &self.difficulty);
        append_u64f(&mut p, self.number);
        append_u256(&mut p, &self.gas_limit);
        append_u256(&mut p, &self.gas_used);
        append_u64f(&mut p, self.timestamp);
        crate::rlp::append_bytes(&mut p, self.extra_data.as_slice());
        crate::rlp::append_bytes(&mut p, self.mix_hash.as_slice());
        crate::rlp::append_bytes(&mut p, self.nonce.as_slice());
        proof {
            let h = self@;
            let e1 = enc_bytes(h.parent_hash);
            let e2 = enc_bytes(h.ommers_hash);
            let e3 = enc_bytes(h.beneficiary);
            let e4 = enc_bytes(h.state_root);
            let e5 = enc_bytes(h.transactions_root);
            let e6 = enc_bytes(h.receipts_root);
            let e7 = enc_bytes(h.logs_bloom);
            let e8 = enc_nat(h.difficulty);
            let e9 = enc_nat(h.number);
            let e10 = enc_nat(h.gas_limit);
            let e11 = enc_nat(h.gas_used);
            let e12 = enc_nat(h.timestamp);
            let e13 = enc_bytes(h.extra_data);
            let e14 = enc_bytes(h.mix_hash);
            let e15 = enc_bytes(h.nonce);
            let t14 = e14 + e15;
            let t13 = e13 + t14;
            let t12 = e12 + t13;
            let t11 = e11 + t12;
            let t10 = e10 + t11;
            let t9 = e9 + t10;
            let t8 = e8 + t9;
            let t7 = e7 + t8;
            let t6 = e6 + t7;
            let t5 = e5 + t6;
            let t4 = e4 + t5;
            let t3 = e3 + t4;
            let t2 = e2 + t3;
            assert(header_payload_sp(h) == e1 + t2);
            let g1 = Seq::<u8>::empty() + e1;
            assert(g1 =~= e1);
            let g2 = g1 + e2;
            let g3 = g2 + e3;
            let g4 = g3 + e4;
            let g5 = g4 + e5;
            let g6 = g5 + e6;
            let g7 = g6 + e7;
            let g8 = g7 + e8;
            let g9 = g8 + e9;
            let g10 = g9 + e10;
            let g11 = g10 + e11;
            let g12 = g11 + e12;
            let g13 = g12 + e13;
            let g14 = g13 + e14;
            vstd::seq_lib::lemma_concat_associative(g1, e2, t3);
            vstd::seq_lib::lemma_concat_associative(g2, e3, t4);
            vstd::seq_lib::lemma_concat_associative(g3, e4, t5);
            vstd::seq_lib::lemma_concat_associative(g4, e5, t6);
            vstd::seq_lib::lemma_concat_associative(g5, e6, t7);
            vstd::seq_lib::lemma_concat_associative(g6, e7, t8);
            vstd::seq_lib::lemma_concat_associative(g7, e8, t9);
            vstd::seq_lib::lemma_concat_associative(g8, e9, t10);
            vstd::seq_lib::lemma_concat_associative(g9, e10, t11);
            vstd::seq_lib::lemma_concat_associative(g10, e11, t12);
            vstd::seq_lib::lemma_concat_associative(g11, e12, t13);
            vstd::seq_lib::lemma_concat_associative(g12, e13, t14);
            vstd::seq_lib::lemma_concat_associative(g13, e14, e15);
            assert(p@ == header_payload_sp(h));
        }
        crate::rlp::wrap_list(p.as_slice())
    }
}

impl Log {
    pub fn rlp_payload(&self) -> (r: Vec<u8>)
        ensures
            r@ == log_rlp_sp(self@),
    {
        let mut tp: Vec<u8> = Vec::new();
        let mut i: usize = 0;
        while i < self.topics.len()
            invariant
                i <= self.topics@.len(),
                tp@ == topics_payload_sp(self@.topics.take(i as int)),
            decreases self.topics@.len() - i,
        {
            crate::rlp::append_bytes(&mut tp, self.topics[i].as_slice());
            proof {
                let ts = self@.topics;
                assert(ts.take(i + 1).drop_last() =~= ts.take(i as int));
                assert(ts.take(i + 1).last() == ts[i as int]);
            }
            i = i + 1;
        }
        proof {
            assert(self@.topics.take(self@.topics.len() as int) =~= self@.topics);
        }
        let tl = crate::rlp::wrap_list(tp.as_slice());
        let mut p: Vec<u8> = Vec::new();
        crate::rlp::append_bytes(&mut p, self.address.as_slice());
        crate::rlp::push_all(&mut p, tl.as_slice());
        crate::rlp::append_bytes(&mut p, self.data.as_slice());
        proof {
            assert(p@ =~= enc_bytes(self@.address) + (enc_list(topics_payload_sp(self@.topics))
                + enc_bytes(self@.data)));
        }
        crate::rlp::wrap_list(p.as_slice())
    }
}

impl Receipt {
    /// The canonical serialization.
    pub fn rlp(&self) -> (r: Vec<u8>)
        ensures
            r@ == receipt_rlp_sp(self@),
    {
        let mut lp: Vec<u8> = Vec::new();
        let mut i: usize = 0;
        while i < self.logs.len()
            invariant
                i <= self.logs@.len(),
                lp@ == logs_payload_sp(self@.logs.take(i as int)),
            decreases self.logs@.len() - i,
        {
            let one = self.logs[i].rlp_payload();
            crate::rlp::push_all(&mut lp, one.as_slice());
            proof {
                let ls = self@.logs;
                assert(ls.take(i + 1).drop_last() =~= ls.take(i as int));
                assert(ls.take(i + 1).last() == ls[i as int]);
            }
            i = i + 1;
        }
        proof {
            assert(self@.logs.take(self@.logs.len() as int) =~= self@.logs);
        }
        let ll = crate::rlp::wrap_list(lp.as_slice());
        let mut p: Vec<u8> = Vec::new();
        crate::rlp::append_bytes(&mut p, self.state_root.as_slice());
        append_u256(&mut p, &self.used_gas);
        crate::rlp::append_bytes(&mut p, self.logs_bloom.as_slice());
        crate::rlp::push_all(&mut p, ll.as_slice());
        proof {
            assert(p@ =~= enc_bytes(self@.state_root) + (enc_nat(self@.used_gas)
                + (enc_bytes(self@.logs_bloom) + enc_list(logs_payload_sp(self@.logs)))));
        }
        crate::rlp::wrap_list(p.as_slice())
    }
}

impl Block {
    /// The canonical serialization.
    pub fn rlp(&self) -> (r: Vec<u8>)
        ensures
            r@ == block_rlp_sp(self@),
    {
        let hr = self.header.rlp();
        let mut tp: Vec<u8> = Vec::new();
        let mut i: usize = 0;
        while i < self.transactions.len()
            invariant
                i <= self.transactions@.len(),
                tp@ == txs_payload_sp(self@.transactions.take(i as int)),
            decreases self.transactions@.len() - i,
        {
            let one = self.transactions[i].rlp();
            crate::rlp::push_all(&mut tp, one.as_slice());
            proof {
                let ts = self@.transactions;
                assert(ts.take(i + 1).drop_last() =~= ts.take(i as int));
                assert(ts.take(i + 1).last() == ts[i as int]);
            }
            i = i + 1;
        }
        proof {
            assert(self@.transactions.take(self@.transactions.len() as int)
                =~= self@.transactions);
        }
        let tl = crate::rlp::wrap_list(tp.as_slice());
        let mut op: Vec<u8> = Vec::new();
        let mut j: usize = 0;
        while j < self.ommers.len()
            invariant
                j <= self.ommers@.len(),
                op@ == headers_payload_sp(self@.ommers.take(j as int)),
            decreases self.ommers@.len() - j,
        {
            let one = self.ommers[j].rlp();
            crate::rlp::push_all(&mut op, one.as_slice());
            proof {
                let os = self@.ommers;
                assert(os.take(j + 1).drop_last() =~= os.take(j as int));
                assert(os.take(j + 1).last() == os[j as int]);
            }
            j = j + 1;
        }
        proof {
            assert(self@.ommers.take(self@.ommers.len() as int) =~= self@.ommers);
        }
        let ol = crate::rlp::wrap_list(op.as_slice());
        let mut p: Vec<u8> = Vec::new();
        crate::rlp::push_all(&mut p, hr.as_slice());
        crate::rlp::push_all(&mut p, tl.as_slice());
        crate::rlp::push_all(&mut p, ol.as_slice());
        proof {
            assert(p@ =~= header_rlp_sp(self@.header) + (enc_list(txs_payload_sp(
                self@.transactions)) + enc_list(headers_payload_sp(self@.ommers))));
        }
        crate::rlp::wrap_list(p.as_slice())
    }
}


/// One string field, with a sentinel position past the buffer on failure.
pub open spec fn pb_step(s: Seq<u8>, i: nat) -> (Seq<u8>, nat) {
    match crate::rlp::parse_bytes_sp(s, i) {
        Some(r) => r,
        None => (Seq::empty(), (s.len() + 1) as nat),
    }
}

/// What decoding a transaction at position `i` yields.
pub open spec fn tx_parse_at_sp(s: Seq<u8>, i: nat) -> Option<(TransactionV, nat)> {
    match crate::rlp::parse_list_sp(s, i) {
        None => None,
        Some((p0, end)) => {
            let (b1, i1) = pb_step(s, p0);
            let (b2, i2) = pb_step(s, i1);
            let (b3, i3) = pb_step(s, i2);
            let (b4, i4) = pb_step(s, i3);
            let (b5, i5) = pb_step(s, i4);
            let (b6, i6) = pb_step(s, i5);
            let (b7, i7) = pb_step(s, i6);
            let (b8, i8) = pb_step(s, i7);
            let (b9, i9) = pb_step(s, i8);
            if i9 == end && b1.len() <= 32 && b2.len() <= 32 && b3.len() <= 32
                && (b4.len() == 0 || b4.len() == 20) && b5.len() <= 32
                && b6.len() <= 0xffffffff && b7.len() <= 8
                && b8.len() <= 32 && b9.len() <= 32 {
                Some((
                    TransactionV {
                        nonce: crate::u256::be_val(b1),
                        gas_price: crate::u256::be_val(b2),
                        gas_limit: crate::u256::be_val(b3),
                        action: if b4.len() == 0 {
                            ActionV::Create
                        } else {
                            ActionV::Call(b4)
                        },
                        value: crate::u256::be_val(b5),
                        input: b6,
                        v: crate::u256::be_val(b7),
                        r: crate::u256::be_val(b8),
                        s: crate::u256::be_val(b9),
                    },
                    end,
                ))
            } else {
                None
            }
        },
    }
}

/// What decoding a whole buffer as one transaction yields.
pub open spec fn tx_parse_sp(s: Seq<u8>) -> Option<TransactionV> {
    match tx_parse_at_sp(s, 0) {
        None => None,
        Some((t, end)) => if end == s.len() {
            Some(t)
        } else {
            None
        },
    }
}

/// Decode a transaction from its canonical serialization.
pub fn decode_transaction(buf: &[u8]) -> (r: Result<Transaction, crate::error::Error>)
    ensures
        r is Ok <==> tx_parse_sp(buf@) is Some,
        r is Ok ==> r->Ok_0@ == tx_parse_sp(buf@)->0,
        r is Ok ==> wf_tx(r->Ok_0@),
        r is Err ==> r->Err_0 == crate::error::Error::RlpError,
{
    let (p0, end) = match crate::rlp::parse_list(buf, 0) {
        Ok(v) => v,
        Err(e) => {
            return Err(crate::error::Error::RlpError);
        },
    };
    if end != buf.len() {
        return Err(crate::error::Error::RlpError);
    }
    let (b1, i1) = match crate::rlp::parse_bytes(buf, p0) {
        Ok(v) => v,
        Err(e) => {
            return Err(crate::error::Error::RlpError);
        },
    };
    let (b2, i2) = match crate::rlp::parse_bytes(buf, i1) {
        Ok(v) => v,
        Err(e) => {
            return Err(crate::error::Error::RlpError);
        },
    };
    let (b3, i3) = match crate::rlp::parse_bytes(buf, i2) {
        Ok(v) => v,
        Err(e) => {
            return Err(crate::error::Error::RlpError);
        },
    };
    let (b4, i4) = match crate::rlp::parse_bytes(buf, i3) {
        Ok(v) => v,
        Err(e) => {
            return Err(crate::error::Error::RlpError);
        },
    };
    let (b5, i5) = match crate::rlp::parse_bytes(buf, i4) {
        Ok(v) => v,
        Err(e) => {
            return Err(crate::error::Error::RlpError);
        },
    };
    let (b6, i6) = match crate::rlp::parse_bytes(buf, i5) {
        Ok(v) => v,
        Err(e) => {
            return Err(crate::error::Error::RlpError);
        },
    };
    let (b7, i7) = match crate::rlp::parse_bytes(buf, i6) {
        Ok(v) => v,
        Err(e) => {
            return Err(crate::error::Error::RlpError);
        },
    };
    let (b8, i8) = match crate::rlp::parse_bytes(buf, i7) {
        Ok(v) => v,
        Err(e) => {
            return Err(crate::error::Error::RlpError);
        },
    };
    let (b9, i9) = match crate::rlp::parse_bytes(buf, i8) {
        Ok(v) => v,
        Err(e) => {
            return Err(crate::error::Error::RlpError);
        },
    };
    if !(i9 == end && b1.len() <= 32 && b2.len() <= 32 && b3.len() <= 32
        && (b4.len() == 0 || b4.len() == 20) && b5.len() <= 32
        && b6.len() <= 0xffffffff && b7.len() <= 8
        && b8.len() <= 32 && b9.len() <= 32) {
        return Err(crate::error::Error::RlpError);
    }
    let v64 = {
        let v = U256::from_be_bytes(b7.as_slice());
        proof {
            crate::u256::lemma_be_val_bound(b7@);
            crate::u256::lemma_pow256_mono(b7@.len(), 8);
            crate::u256::lemma_pow256_values();
        }
        v.as_u64()
    };
    let t = Transaction {
        nonce: U256::from_be_bytes(b1.as_slice()),
        gas_price: U256::from_be_bytes(b2.as_slice()),
        gas_limit: U256::from_be_bytes(b3.as_slice()),
        action: if b4.len() == 0 {
            TransactionAction::Create
        } else {
            TransactionAction::Call(b4)
        },
        value: U256::from_be_bytes(b5.as_slice()),
        input: b6,
        v: v64,
        r: U256::from_be_bytes(b8.as_slice()),
        s: U256::from_be_bytes(b9.as_slice()),
    };
    proof {
        t.nonce.lemma_val_bound();
        t.gas_price.lemma_val_bound();
        t.gas_limit.lemma_val_bound();
        t.value.lemma_val_bound();
        t.r.lemma_val_bound();
        t.s.lemma_val_bound();
    }
    Ok(t)
}


/// The serialized payload of a well-formed transaction is short.
pub proof fn lemma_tx_payload_len(t: TransactionV)
    requires
        wf_tx(t),
    ensures
        tx_payload_sp(t).len() < 0x200000000,
{
    crate::u256::lemma_pow256_values();
    crate::rlp::lemma_nat_min_be_len(t.nonce, 32);
    crate::rlp::lemma_nat_min_be_len(t.gas_price, 32);
    crate::rlp::lemma_nat_min_be_len(t.gas_limit, 32);
    crate::rlp::lemma_nat_min_be_len(t.value, 32);
    crate::rlp::lemma_nat_min_be_len(t.v, 8);
    crate::rlp::lemma_nat_min_be_len(t.r, 32);
    crate::rlp::lemma_nat_min_be_len(t.s, 32);
    crate::rlp::lemma_enc_bytes_len(nat_min_be(t.nonce));
    crate::rlp::lemma_enc_bytes_len(nat_min_be(t.gas_price));
    crate::rlp::lemma_enc_bytes_len(nat_min_be(t.gas_limit));
    crate::rlp::lemma_enc_bytes_len(nat_min_be(t.value));
    crate::rlp::lemma_enc_bytes_len(nat_min_be(t.v));
    crate::rlp::lemma_enc_bytes_len(nat_min_be(t.r));
    crate::rlp::lemma_enc_bytes_len(nat_min_be(t.s));
    crate::rlp::lemma_enc_bytes_len(t.input);
    match t.action {
        ActionV::Call(a) => {
            crate::rlp::lemma_enc_bytes_len(a);
        },
        ActionV::Create => {
            crate::rlp::lemma_enc_bytes_len(Seq::empty());
        },
    }
}

/// Decoding the serialization of a well-formed transaction gives the
/// transaction back; re-serializing therefore reproduces the bytes.
/// Every field of an encoded well-formed transaction parses back at
/// its position.
#[verifier::rlimit(100)]
#[verifier::spinoff_prover]
proof fn lemma_tx_fields_parse(t: TransactionV)
    requires
        wf_tx(t),
    ensures
        ({
            let s = tx_rlp_sp(t);
            let p = tx_payload_sp(t);
            let start = (s.len() - p.len()) as nat;
            let b1 = nat_min_be(t.nonce);
            let b2 = nat_min_be(t.gas_price);
            let b3 = nat_min_be(t.gas_limit);
            let b4 = enc_action_payload(t.action);
            let b5 = nat_min_be(t.value);
            let b6 = t.input;
            let b7 = nat_min_be(t.v);
            let b8 = nat_min_be(t.r);
            let b9 = nat_min_be(t.s);
            let i1 = start + enc_bytes(b1).len();
            let i2 = i1 + enc_bytes(b2).len();
            let i3 = i2 + enc_bytes(b3).len();
            let i4 = i3 + enc_bytes(b4).len();
            let i5 = i4 + enc_bytes(b5).len();
            let i6 = i5 + enc_bytes(b6).len();
            let i7 = i6 + enc_bytes(b7).len();
            let i8 = i7 + enc_bytes(b8).len();
            let i9 = i8 + enc_bytes(b9).len();
            &&& crate::rlp::parse_list_sp(s, 0) == Some((start, s.len() as nat))
            &&& i9 == s.len()
            &&& crate::rlp::parse_bytes_sp(s, start) == Some((b1, i1))
            &&& crate::rlp::parse_bytes_sp(s, i1) == Some((b2, i2))
            &&& crate::rlp::parse_bytes_sp(s, i2) == Some((b3, i3))
            &&& crate::rlp::parse_bytes_sp(s, i3) == Some((b4, i4))
            &&& crate::rlp::parse_bytes_sp(s, i4) == Some((b5, i5))
            &&& crate::rlp::parse_bytes_sp(s, i5) == Some((b6, i6))
            &&& crate::rlp::parse_bytes_sp(s, i6) == Some((b7, i7))
            &&& crate::rlp::parse_bytes_sp(s, i7) == Some((b8, i8))
            &&& crate::rlp::parse_bytes_sp(s, i8) == Some((b9, i9))
        }),
{
    let p = tx_payload_sp(t);
    let s = tx_rlp_sp(t);
    crate::u256::lemma_pow256_values();
    lemma_tx_payload_len(t);
    assert(s.subrange(0, s.len() as int) =~= s);
    crate::rlp::lemma_parse_list_inv(s, 0, p);
    let start = (s.len() - p.len()) as nat;
    let b1 = nat_min_be(t.nonce);
    let b2 = nat_min_be(t.gas_price);
    let b3 = nat_min_be(t.gas_limit);
    let b4 = enc_action_payload(t.action);
    let b5 = nat_min_be(t.value);
    let b6 = t.input;
    let b7 = nat_min_be(t.v);
    let b8 = nat_min_be(t.r);
    let b9 = nat_min_be(t.s);
    crate::rlp::lemma_nat_min_be_len(t.nonce, 32);
    crate::rlp::lemma_nat_min_be_len(t.gas_price, 32);
    crate::rlp::lemma_nat_min_be_len(t.gas_limit, 32);
    crate::rlp::lemma_nat_min_be_len(t.value, 32);
    crate::rlp::lemma_nat_min_be_len(t.v, 8);
    crate::rlp::lemma_nat_min_be_len(t.r, 32);
    crate::rlp::lemma_nat_min_be_len(t.s, 32);
    let t8 = enc_nat(t.r) + enc_nat(t.s);
    let t7 = enc_nat(t.v) + t8;
    let t6 = enc_bytes(t.input) + t7;
    let t5 = enc_nat(t.value) + t6;
    let t4 = enc_action(t.action) + t5;
    let t3 = enc_nat(t.gas_price) + (enc_nat(t.gas_limit) + t4);
    assert(enc_action(t.action) == enc_bytes(b4));
    assert(s.subrange(start as int, (start + p.len()) as int)
        == enc_bytes(b1) + (enc_bytes(b2) + (enc_bytes(b3) + t4)));
    crate::rlp::lemma_fields3_at(s, start, b1, b2, b3, t4);
    let i3 = start + enc_bytes(b1).len() + enc_bytes(b2).len() + enc_bytes(b3).len();
    crate::rlp::lemma_fields3_at(s, i3 as nat, b4, b5, b6, t7);
    let i6 = i3 + enc_bytes(b4).len() + enc_bytes(b5).len() + enc_bytes(b6).len();
    assert(enc_bytes(b9) + Seq::<u8>::empty() =~= enc_bytes(b9));
    assert(t7 =~= enc_bytes(b7) + (enc_bytes(b8) + (enc_bytes(b9) + Seq::<u8>::empty())));
    crate::rlp::lemma_fields3_at(s, i6 as nat, b7, b8, b9, Seq::empty());
}

/// Decoding the serialization of a well-formed transaction gives the
/// transaction back; re-serializing therefore reproduces the bytes.
#[verifier::rlimit(100)]
#[verifier::spinoff_prover]
pub proof fn lemma_tx_round_trip(t: TransactionV)
    requires
        wf_tx(t),
    ensures
        tx_parse_sp(tx_rlp_sp(t)) == Some(t),
{
    lemma_tx_fields_parse(t);
    crate::u256::lemma_pow256_values();
    crate::rlp::lemma_nat_min_be_len(t.nonce, 32);
    crate::rlp::lemma_nat_min_be_len(t.gas_price, 32);
    crate::rlp::lemma_nat_min_be_len(t.gas_limit, 32);
    crate::rlp::lemma_nat_min_be_len(t.value, 32);
    crate::rlp::lemma_nat_min_be_len(t.v, 8);
    crate::rlp::lemma_nat_min_be_len(t.r, 32);
    crate::rlp::lemma_nat_min_be_len(t.s, 32);
    crate::rlp::lemma_nat_min_be_val(t.nonce);
    crate::rlp::lemma_nat_min_be_val(t.gas_price);
    crate::rlp::lemma_nat_min_be_val(t.gas_limit);
    crate::rlp::lemma_nat_min_be_val(t.value);
    crate::rlp::lemma_nat_min_be_val(t.v);
    crate::rlp::lemma_nat_min_be_val(t.r);
    crate::rlp::lemma_nat_min_be_val(t.s);
    let s = tx_rlp_sp(t);
    let r = tx_parse_sp(s);
    if t.action is Call {
        assert(r == Some(t));
    } else {
        assert(r == Some(t));
    }
}


/// What decoding a header at position `i` yields.
pub open spec fn header_parse_at_sp(s: Seq<u8>, i: nat) -> Option<(HeaderV, nat)> {
    match crate::rlp::parse_list_sp(s, i) {
        None => None,
        Some((p0, end)) => {
            let (b1, i1) = pb_step(s, p0);
            let (b2, i2) = pb_step(s, i1);
            let (b3, i3) = pb_step(s, i2);
            let (b4, i4) = pb_step(s, i3);
            let (b5, i5) = pb_step(s, i4);
            let (b6, i6) = pb_step(s, i5);
            let (b7, i7) = pb_step(s, i6);
            let (b8, i8) = pb_step(s, i7);
            let (b9, i9) = pb_step(s, i8);
            let (b10, i10) = pb_step(s, i9);
            let (b11, i11) = pb_step(s, i10);
            let (b12, i12) = pb_step(s, i11);
            let (b13, i13) = pb_step(s, i12);
            let (b14, i14) = pb_step(s, i13);
            let (b15, i15) = pb_step(s, i14);
            if i15 == end && b1.len() == 32 && b2.len() == 32 && b3.len() == 20
                && b4.len() == 32 && b5.len() == 32 && b6.len() == 32 && b7.len() == 256
                && b8.len() <= 32 && b9.len() <= 8 && b10.len() <= 32 && b11.len() <= 32
                && b12.len() <= 8 && b13.len() < 56 && b14.len() == 32 && b15.len() == 8 {
                Some((
                    HeaderV {
                        parent_hash: b1,
                        ommers_hash: b2,
                        beneficiary: b3,
                        state_root: b4,
                        transactions_root: b5,
                        receipts_root: b6,
                        logs_bloom: b7,
                        difficulty: crate::u256::be_val(b8),
                        number: crate::u256::be_val(b9),
                        gas_limit: crate::u256::be_val(b10),
                        gas_used: crate::u256::be_val(b11),
                        timestamp: crate::u256::be_val(b12),
                        extra_data: b13,
                        mix_hash: b14,
                        nonce: b15,
                    },
                    end,
                ))
            } else {
                None
            }
        },
    }
}

/// What decoding a whole buffer as one header yields.
pub open spec fn header_parse_sp(s: Seq<u8>) -> Option<HeaderV> {
    match header_parse_at_sp(s, 0) {
        None => None,
        Some((h, end)) => if end == s.len() {
            Some(h)
        } else {
            None
        },
    }
}

/// The serialized payload of a well-formed header is short.
proof fn lemma_header_payload_len(h: HeaderV)
    requires
        wf_header(h),
    ensures
        header_payload_sp(h).len() < 0x10000,
{
    crate::u256::lemma_pow256_values();
    crate::rlp::lemma_nat_min_be_len(h.difficulty, 32);
    crate::rlp::lemma_nat_min_be_len(h.number, 8);
    crate::rlp::lemma_nat_min_be_len(h.gas_limit, 32);
    crate::rlp::lemma_nat_min_be_len(h.gas_used, 32);
    crate::rlp::lemma_nat_min_be_len(h.timestamp, 8);
    crate::rlp::lemma_enc_bytes_len(h.parent_hash);
    crate::rlp::lemma_enc_bytes_len(h.ommers_hash);
    crate::rlp::lemma_enc_bytes_len(h.beneficiary);
    crate::rlp::lemma_enc_bytes_len(h.state_root);
    crate::rlp::lemma_enc_bytes_len(h.transactions_root);
    crate::rlp::lemma_enc_bytes_len(h.receipts_root);
    crate::rlp::lemma_enc_bytes_len(h.logs_bloom);
    crate::rlp::lemma_enc_bytes_len(nat_min_be(h.difficulty));
    crate::rlp::lemma_enc_bytes_len(nat_min_be(h.number));
    crate::rlp::lemma_enc_bytes_len(nat_min_be(h.gas_limit));
    crate::rlp::lemma_enc_bytes_len(nat_min_be(h.gas_used));
    crate::rlp::lemma_enc_bytes_len(nat_min_be(h.timestamp));
    crate::rlp::lemma_enc_bytes_len(h.extra_data);
    crate::rlp::lemma_enc_bytes_len(h.mix_hash);
    crate::rlp::lemma_enc_bytes_len(h.nonce);
}

/// Every field of an encoded well-formed header parses back at its
/// position.
#[verifier::rlimit(100)]
#[verifier::spinoff_prover]
proof fn lemma_header_fields_parse(h: HeaderV)
    requires
        wf_header(h),
    ensures
        ({
            let s = header_rlp_sp(h);
            let p = header_payload_sp(h);
            let start = (s.len() - p.len()) as nat;
            let b8 = nat_min_be(h.difficulty);
            let b9 = nat_min_be(h.number);
            let b10 = nat_min_be(h.gas_limit);
            let b11 = nat_min_be(h.gas_used);
            let b12 = nat_min_be(h.timestamp);
            let i1 = start + enc_bytes(h.parent_hash).len();
            let i2 = i1 + enc_bytes(h.ommers_hash).len();
            let i3 = i2 + enc_bytes(h.beneficiary).len();
            let i4 = i3 + enc_bytes(h.state_root).len();
            let i5 = i4 + enc_bytes(h.transactions_root).len();
            let i6 = i5 + enc_bytes(h.receipts_root).len();
            let i7 = i6 + enc_bytes(h.logs_bloom).len();
            let i8 = i7 + enc_bytes(b8).len();
            let i9 = i8 + enc_bytes(b9).len();
            let i10 = i9 + enc_bytes(b10).len();
            let i11 = i10 + enc_bytes(b11).len();
            let i12 = i11 + enc_bytes(b12).len();
            let i13 = i12 + enc_bytes(h.extra_data).len();
            let i14 = i13 + enc_bytes(h.mix_hash).len();
            let i15 = i14 + enc_bytes(h.nonce).len();
            &&& crate::rlp::parse_list_sp(s, 0) == Some((start, s.len() as nat))
            &&& i15 == s.len()
            &&& crate::rlp::parse_bytes_sp(s, start) == Some((h.parent_hash, i1))
            &&& crate::rlp::parse_bytes_sp(s, i1) == Some((h.ommers_hash, i2))
            &&& crate::rlp::parse_bytes_sp(s, i2) == Some((h.beneficiary, i3))
            &&& crate::rlp::parse_bytes_sp(s, i3) == Some((h.state_root, i4))
            &&& crate::rlp::parse_bytes_sp(s, i4) == Some((h.transactions_root, i5))
            &&& crate::rlp::parse_bytes_sp(s, i5) == Some((h.receipts_root, i6))
            &&& crate::rlp::parse_bytes_sp(s, i6) == Some((h.logs_bloom, i7))
            &&& crate::rlp::parse_bytes_sp(s, i7) == Some((b8, i8))
            &&& crate::rlp::parse_bytes_sp(s, i8) == Some((b9, i9))
            &&& crate::rlp::parse_bytes_sp(s, i9) == Some((b10, i10))
            &&& crate::rlp::parse_bytes_sp(s, i10) == Some((b11, i11))
            &&& crate::rlp::parse_bytes_sp(s, i11) == Some((b12, i12))
            &&& crate::rlp::parse_bytes_sp(s, i12) == Some((h.extra_data, i13))
            &&& crate::rlp::parse_bytes_sp(s, i13) == Some((h.mix_hash, i14))
            &&& crate::rlp::parse_bytes_sp(s, i14) == Some((h.nonce, i15))
        }),
{
    let p = header_payload_sp(h);
    let s = header_rlp_sp(h);
    crate::u256::lemma_pow256_values();
    lemma_header_payload_len(h);
    assert(s.subrange(0, s.len() as int) =~= s);
    crate::rlp::lemma_parse_list_inv(s, 0, p);
    let start = (s.len() - p.len()) as nat;
    let b8 = nat_min_be(h.difficulty);
    let b9 = nat_min_be(h.number);
    let b10 = nat_min_be(h.gas_limit);
    let b11 = nat_min_be(h.gas_used);
    let b12 = nat_min_be(h.timestamp);
    crate::rlp::lemma_nat_min_be_len(h.difficulty, 32);
    crate::rlp::lemma_nat_min_be_len(h.number, 8);
    crate::rlp::lemma_nat_min_be_len(h.gas_limit, 32);
    crate::rlp::lemma_nat_min_be_len(h.gas_used, 32);
    crate::rlp::lemma_nat_min_be_len(h.timestamp, 8);
    let t14 = enc_bytes(h.mix_hash) + enc_bytes(h.nonce);
    let t13 = enc_bytes(h.extra_data) + t14;
    let t12 = enc_nat(h.timestamp) + t13;
    let t11 = enc_nat(h.gas_used) + t12;
    let t10 = enc_nat(h.gas_limit) + t11;
    let t9 = enc_nat(h.number) + t10;
    let t7 = enc_bytes(h.logs_bloom) + (enc_nat(h.difficulty) + t9);
    let t6 = enc_bytes(h.receipts_root) + t7;
    let t5 = enc_bytes(h.transactions_root) + t6;
    let t4 = enc_bytes(h.state_root) + t5;
    assert(s.subrange(start as int, (start + p.len()) as int)
        == enc_bytes(h.parent_hash) + (enc_bytes(h.ommers_hash)
            + (enc_bytes(h.beneficiary) + t4)));
    crate::rlp::lemma_fields3_at(s, start, h.parent_hash, h.ommers_hash, h.beneficiary, t4);
    let i3 = start + enc_bytes(h.parent_hash).len() + enc_bytes(h.ommers_hash).len()
        + enc_bytes(h.beneficiary).len();
    assert(t4 =~= enc_bytes(h.state_root) + (enc_bytes(h.transactions_root)
        + (enc_bytes(h.receipts_root) + t7)));
    crate::rlp::lemma_fields3_at(s, i3 as nat, h.state_root, h.transactions_root,
        h.receipts_root, t7);
    let i6 = i3 + enc_bytes(h.state_root).len() + enc_bytes(h.transactions_root).len()
        + enc_bytes(h.receipts_root).len();
    assert(t7 =~= enc_bytes(h.logs_bloom) + (enc_bytes(b8) + (enc_bytes(b9) + t10)));
    crate::rlp::lemma_fields3_at(s, i6 as nat, h.logs_bloom, b8, b9, t10);
    let i9 = i6 + enc_bytes(h.logs_bloom).len() + enc_bytes(b8).len() + enc_bytes(b9).len();
    assert(t10 =~= enc_bytes(b10) + (enc_bytes(b11) + (enc_bytes(b12) + t13)));
    crate::rlp::lemma_fields3_at(s, i9 as nat, b10, b11, b12, t13);
    let i12 = i9 + enc_bytes(b10).len() + enc_bytes(b11).len() + enc_bytes(b12).len();
    assert(enc_bytes(h.nonce) + Seq::<u8>::empty() =~= enc_bytes(h.nonce));
    assert(t13 =~= enc_bytes(h.extra_data) + (enc_bytes(h.mix_hash)
        + (enc_bytes(h.nonce) + Seq::<u8>::empty())));
    crate::rlp::lemma_fields3_at(s, i12 as nat, h.extra_data, h.mix_hash, h.nonce,
        Seq::empty());
}

/// Decoding the serialization of a well-formed header gives the
/// header back; re-serializing therefore reproduces the bytes.
#[verifier::rlimit(100)]
#[verifier::spinoff_prover]
pub proof fn lemma_header_round_trip(h: HeaderV)
    requires
        wf_header(h),
    ensures
        header_parse_sp(header_rlp_sp(h)) == Some(h),
{
    lemma_header_fields_parse(h);
    crate::u256::lemma_pow256_values();
    crate::rlp::lemma_nat_min_be_len(h.difficulty, 32);
    crate::rlp::lemma_nat_min_be_len(h.number, 8);
    crate::rlp::lemma_nat_min_be_len(h.gas_limit, 32);
    crate::rlp::lemma_nat_min_be_len(h.gas_used, 32);
    crate::rlp::lemma_nat_min_be_len(h.timestamp, 8);
    crate::rlp::lemma_nat_min_be_val(h.difficulty);
    crate::rlp::lemma_nat_min_be_val(h.number);
    crate::rlp::lemma_nat_min_be_val(h.gas_limit);
    crate::rlp::lemma_nat_min_be_val(h.gas_used);
    crate::rlp::lemma_nat_min_be_val(h.timestamp);
    let s = header_rlp_sp(h);
    let p = header_payload_sp(h);
    let start = (s.len() - p.len()) as nat;
    let b8 = nat_min_be(h.difficulty);
    let b9 = nat_min_be(h.number);
    let b10 = nat_min_be(h.gas_limit);
    let b11 = nat_min_be(h.gas_used);
    let b12 = nat_min_be(h.timestamp);
    let i1 = start + enc_bytes(h.parent_hash).len();
    let i2 = i1 + enc_bytes(h.ommers_hash).len();
    let i3 = i2 + enc_bytes(h.beneficiary).len();
    let i4 = i3 + enc_bytes(h.state_root).len();
    let i5 = i4 + enc_bytes(h.transactions_root).len();
    let i6 = i5 + enc_bytes(h.receipts_root).len();
    let i7 = i6 + enc_bytes(h.logs_bloom).len();
    let i8 = i7 + enc_bytes(b8).len();
    let i9 = i8 + enc_bytes(b9).len();
    let i10 = i9 + enc_bytes(b10).len();
    let i11 = i10 + enc_bytes(b11).len();
    let i12 = i11 + enc_bytes(b12).len();
    let i13 = i12 + enc_bytes(h.extra_data).len();
    let i14 = i13 + enc_bytes(h.mix_hash).len();
    let i15 = i14 + enc_bytes(h.nonce).len();
    assert(pb_step(s, start) == (h.parent_hash, i1 as nat));
    assert(pb_step(s, i1 as nat) == (h.ommers_hash, i2 as nat));
    assert(pb_step(s, i2 as nat) == (h.beneficiary, i3 as nat));
    assert(pb_step(s, i3 as nat) == (h.state_root, i4 as nat));
    assert(pb_step(s, i4 as nat) == (h.transactions_root, i5 as nat));
    assert(pb_step(s, i5 as nat) == (h.receipts_root, i6 as nat));
    assert(pb_step(s, i6 as nat) == (h.logs_bloom, i7 as nat));
    assert(pb_step(s, i7 as nat) == (b8, i8 as nat));
    assert(pb_step(s, i8 as nat) == (b9, i9 as nat));
    assert(pb_step(s, i9 as nat) == (b10, i10 as nat));
    assert(pb_step(s, i10 as nat) == (b11, i11 as nat));
    assert(pb_step(s, i11 as nat) == (b12, i12 as nat));
    assert(pb_step(s, i12 as nat) == (h.extra_data, i13 as nat));
    assert(pb_step(s, i13 as nat) == (h.mix_hash, i14 as nat));
    assert(pb_step(s, i14 as nat) == (h.nonce, i15 as nat));
    assert(i15 == s.len());
    assert(header_parse_at_sp(s, 0) == Some((h, s.len() as nat)));
    assert(header_parse_sp(s) == Some(h));
}


impl TransactionAction {
    /// A copy equal to the original.
    pub fn duplicate(&self) -> (r: TransactionAction)
        ensures
            r@ == self@,
    {
        match self {
            TransactionAction::Call(a) => TransactionAction::Call(crate::util::clone_bytes(a)),
            TransactionAction::Create => TransactionAction::Create,
        }
    }
}

impl Transaction {
    /// A copy equal to the original.
    pub fn duplicate(&self) -> (r: Transaction)
        ensures
            r@ == self@,
    {
        Transaction {
            nonce: self.nonce,
            gas_price: self.gas_price,
            gas_limit: self.gas_limit,
            action: self.action.duplicate(),
            value: self.value,
            input: crate::util::clone_bytes(&self.input),
            v: self.v,
            r: self.r,
            s: self.s,
        }
    }
}

impl Header {
    /// A copy equal to the original.
    pub fn duplicate(&self) -> (r: Header)
        ensures
            r@ == self@,
    {
        Header {
            parent_hash: crate::util::clone_bytes(&self.parent_hash),
            ommers_hash: crate::util::clone_bytes(&self.ommers_hash),
            beneficiary: crate::util::clone_bytes(&self.beneficiary),
            state_root: crate::util::clone_bytes(&self.state_root),
            transactions_root: crate::util::clone_bytes(&self.transactions_root),
            receipts_root: crate::util::clone_bytes(&self.receipts_root),
            logs_bloom: crate::util::clone_bytes(&self.logs_bloom),
            difficulty: self.difficulty,
            number: self.number,
            gas_limit: self.gas_limit,
            gas_used: self.gas_used,
            timestamp: self.timestamp,
            extra_data: crate::util::clone_bytes(&self.extra_data),
            mix_hash: crate::util::clone_bytes(&self.mix_hash),
            nonce: crate::util::clone_bytes(&self.nonce),
        }
    }
}

impl Log {
    /// A copy equal to the original.
    pub fn duplicate(&self) -> (r: Log)
        ensures
            r@ == self@,
    {
        let l = Log {
            address: crate::util::clone_bytes(&self.address),
            topics: crate::util::clone_bytes_vec(&self.topics),
            data: crate::util::clone_bytes(&self.data),
        };
        proof {
            assert(l@.topics =~= self@.topics);
        }
        l
    }
}

impl Receipt {
    /// A copy equal to the original.
    pub fn duplicate(&self) -> (r: Receipt)
        ensures
            r@ == self@,
    {
        let mut logs: Vec<Log> = Vec::new();
        let mut i: usize = 0;
        while i < self.logs.len()
            invariant
                i <= self.logs@.len(),
                logs@.len() == i,
                forall|j: int| 0 <= j < i ==> #[trigger] logs@[j]@ == self.logs@[j]@,
            decreases self.logs@.len() - i,
        {
            let one = self.logs[i].duplicate();
            logs.push(one);
            i = i + 1;
        }
        let r = Receipt {
            state_root: crate::util::clone_bytes(&self.state_root),
            used_gas: self.used_gas,
            logs_bloom: crate::util::clone_bytes(&self.logs_bloom),
            logs,
        };
        proof {
            assert(r@.logs =~= self@.logs);
        }
        r
    }
}

impl Block {
    /// A copy equal to the original.
    pub fn duplicate(&self) -> (r: Block)
        ensures
            r@ == self@,
    {
        let mut txs: Vec<Transaction> = Vec::new();
        let mut i: usize = 0;
        while i < self.transactions.len()
            invariant
                i <= self.transactions@.len(),
                txs@.len() == i,
                forall|j: int| 0 <= j < i ==> #[trigger] txs@[j]@ == self.transactions@[j]@,
            decreases self.transactions@.len() - i,
        {
            let one = self.transactions[i].duplicate();
            txs.push(one);
            i = i + 1;
        }
        let mut oms: Vec<Header> = Vec::new();
        let mut j: usize = 0;
        while j < self.ommers.len()
            invariant
                j <= self.ommers@.len(),
                oms@.len() == j,
                forall|k: int| 0 <= k < j ==> #[trigger] oms@[k]@ == self.ommers@[k]@,
            decreases self.ommers@.len() - j,
        {
            let one = self.ommers[j].duplicate();
            oms.push(one);
            j = j + 1;
        }
        let r = Block { header: self.header.duplicate(), transactions: txs, ommers: oms };
        proof {
            assert(r@.transactions =~= self@.transactions);
            assert(r@.ommers =~= self@.ommers);
        }
        r
    }
}

} // verus!
