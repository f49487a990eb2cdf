//! The chain store: blocks by number and by hash, transactions,
//! receipts, the pending queue, the account keys — the single owner
//! of chain state.
//!
//! Its well-formedness carries the chain invariants: block `i` has
//! number `i`, its stored hash is the hash of its header, and every
//! block after genesis names the previous block's hash as its parent.

use vstd::prelude::*;
use crate::assoc::{find_key, keys_unique, lemma_pairs_map_absent, lemma_pairs_map_index, lemma_pairs_map_push, pairs_map};
use crate::crypto::header_hash_sp;
use crate::error::Error;
use crate::state::WorldState;
use crate::types::{Block, BlockV, Receipt, ReceiptV, TotalHeader, Transaction, TransactionV, wf_block};
use crate::u256::U256;
use crate::util::{bytes_eq, clone_bytes, clone_bytes_vec};

verus! {

/// The chain store.
pub struct MinerState {
    pub blocks: Vec<Block>,
    pub block_hashes: Vec<Vec<u8>>,
    pub total_difficulties: Vec<U256>,
    pub transaction_database: Vec<(Vec<u8>, Transaction)>,
    pub transaction_block_hashes: Vec<(Vec<u8>, Vec<u8>)>,
    pub receipt_database: Vec<(Vec<u8>, Receipt)>,
    pub receipt_statuses: Vec<(Vec<u8>, bool)>,
    pub pending_transaction_hashes: Vec<Vec<u8>>,
    pub all_pending_transaction_hashes: Vec<Vec<u8>>,
    pub accounts: Vec<Vec<u8>>,
    pub address_database: Vec<Vec<u8>>,
    pub world: WorldState,
    pub world_history: Vec<WorldState>,
}

impl MinerState {
    /// The chain invariants, kept at every steady state.
    pub open spec fn wf(self) -> bool {
        &&& self.blocks@.len() >= 1
        &&& self.block_hashes@.len() == self.blocks@.len()
        &&& self.total_difficulties@.len() == self.blocks@.len()
        &&& self.world_history@.len() == self.blocks@.len()
        &&& forall|i: int| 0 <= i < self.blocks@.len()
            ==> (#[trigger] self.blocks@[i])@.header.number == i
        &&& forall|i: int| 0 <= i < self.blocks@.len()
            ==> wf_block((#[trigger] self.blocks@[i])@)
        &&& forall|i: int| 0 <= i < self.blocks@.len()
            ==> (#[trigger] self.block_hashes@[i])@ == header_hash_sp(
            self.blocks@[i]@.header)
        &&& forall|i: int| 1 <= i < self.blocks@.len()
            ==> (#[trigger] self.blocks@[i])@.header.parent_hash
                == self.block_hashes@[i - 1]@
        &&& forall|i: int, j: int| 0 <= i < j < self.blocks@.len()
            ==> (#[trigger] self.block_hashes@[i])@ != (#[trigger] self.block_hashes@[j])@
        &&& keys_unique(self.transaction_database@)
        &&& keys_unique(self.transaction_block_hashes@)
        &&& keys_unique(self.receipt_database@)
        &&& keys_unique(self.receipt_statuses@)
        &&& self.world.wf()
        &&& forall|i: int| 0 <= i < self.world_history@.len()
            ==> (#[trigger] self.world_history@[i]).wf()
        &&& forall|i: int| 0 <= i < self.blocks@.len()
            ==> (#[trigger] self.blocks@[i])@.header.state_root
                == crate::trie::trie_root_of(crate::state::state_trie_map_sp(
                self.world_history@[i].accounts@))
        &&& forall|i: int| 0 <= i < self.pending_transaction_hashes@.len()
            ==> self.tx_map().contains_key(
            (#[trigger] self.pending_transaction_hashes@[i])@)
    }

    /// The known transactions, by hash.
    pub open spec fn tx_map(self) -> Map<Seq<u8>, TransactionV> {
        pairs_map(self.transaction_database@)
    }

    /// Which block a transaction landed in, by hash.
    pub open spec fn tx_block_map(self) -> Map<Seq<u8>, Seq<u8>> {
        pairs_map(self.transaction_block_hashes@)
    }

    /// The receipts, by transaction hash.
    pub open spec fn receipt_map(self) -> Map<Seq<u8>, ReceiptV> {
        pairs_map(self.receipt_database@)
    }

    /// Start a chain from its genesis block and post-genesis world.
    pub fn new(genesis: Block, world: WorldState) -> (r: MinerState)
        requires
            wf_block(genesis@),
            genesis@.header.number == 0,
            genesis@.transactions.len() == 0,
            genesis@.header.state_root == crate::trie::trie_root_of(
                crate::state::state_trie_map_sp(world.accounts@)),
            world.wf(),
        ensures
            r.wf(),
            r.blocks@.len() == 1,
            r.blocks@[0]@ == genesis@,
            r.world == world,
            r.total_difficulties@.len() == 1,
            r.total_difficulties@[0].val() == genesis@.header.difficulty,
            r.pending_transaction_hashes@.len() == 0,
            r.all_pending_transaction_hashes@.len() == 0,
            r.transaction_database@.len() == 0,
            r.transaction_block_hashes@.len() == 0,
            r.receipt_database@.len() == 0,
            r.receipt_statuses@.len() == 0,
            r.accounts@.len() == 0,
            r.address_database@.len() == 0,
    {
        let hash = genesis.header.hash();
        let snapshot = world.duplicate();
        let td = genesis.header.difficulty;
        MinerState {
            blocks: vec![genesis],
            block_hashes: vec![hash],
            total_difficulties: vec![td],
            transaction_database: Vec::new(),
            transaction_block_hashes: Vec::new(),
            receipt_database: Vec::new(),
            receipt_statuses: Vec::new(),
            pending_transaction_hashes: Vec::new(),
            all_pending_transaction_hashes: Vec::new(),
            accounts: Vec::new(),
            address_database: Vec::new(),
            world,
            world_history: vec![snapshot],
        }
    }

    /// The working world state.
    pub open spec fn view_world(self) -> Map<Seq<u8>, crate::state::AccountM> {
        self.world@
    }

    /// Height of the chain: the number of the newest block.
    pub fn block_height(&self) -> (r: usize)
        requires
            self.wf(),
        ensures
            r == self.blocks@.len() - 1,
    {
        self.blocks.len() - 1
    }

    /// Queue a transaction and index it by hash; its hash comes back.
    pub fn append_pending_transaction(&mut self, transaction: Transaction) -> (r: Vec<u8>)
        requires
            old(self).wf(),
        ensures
            final(self).wf(),
            r@ == crate::crypto::tx_hash_sp(transaction@),
            final(self).tx_map() == old(self).tx_map().insert(r@, transaction@),
            final(self).pending_transaction_hashes@.len()
                == old(self).pending_transaction_hashes@.len() + 1,
            final(self).pending_transaction_hashes@.last()@ == r@,
            final(self).blocks@ == old(self).blocks@,
            final(self).receipt_database@ == old(self).receipt_database@,
            final(self).receipt_statuses@ == old(self).receipt_statuses@,
            final(self).world == old(self).world,
    {
        let hash = transaction.hash();
        let ghost pre = self.transaction_database@;
        match find_key(&self.transaction_database, &hash) {
            Some(i) => {
                proof {
                    lemma_chain_pairs_remove(pre, i as int);
                    crate::assoc::lemma_pairs_map_remove(pre, i as int);
                    crate::assoc::lemma_pairs_remove_key_absent(pre, i as int);
                }
                self.transaction_database.remove(i);
            },
            None => {
                proof {
                    crate::assoc::lemma_pairs_map_absent(pre, hash@);
                    assert(pairs_map(pre).remove(hash@) =~= pairs_map(pre));
                }
            },
        }
        let ghost mid = self.transaction_database@;
        proof {
            assert(pairs_map(mid) == pairs_map(pre).remove(hash@));
            assert(forall|i: int| 0 <= i < mid.len() ==> (#[trigger] mid[i]).0@ != hash@);
        }
        let key = clone_bytes(&hash);
        self.transaction_database.push((key, transaction));
        proof {
            lemma_pairs_map_push(mid, self.transaction_database@.last());
            lemma_chain_unique_push(mid, self.transaction_database@.last(), pre, hash@);
            assert(pairs_map(self.transaction_database@)
                =~= pairs_map(pre).insert(hash@, self.transaction_database@.last().1@));
        }
        self.pending_transaction_hashes.push(clone_bytes(&hash));
        self.all_pending_transaction_hashes.push(clone_bytes(&hash));
        hash
    }

    /// Take the whole pending queue, oldest first. Every queued hash
    /// is indexed — the store's invariant carries that — so each
    /// entry comes back as the stored transaction.
    pub fn clear_pending_transactions(&mut self) -> (r: Vec<Transaction>)
        requires
            old(self).wf(),
        ensures
            final(self).wf(),
            final(self).pending_transaction_hashes@.len() == 0,
            r@.len() == old(self).pending_transaction_hashes@.len(),
            forall|i: int| 0 <= i < r@.len() ==> (#[trigger] r@[i])@ == old(self).tx_map()[
                old(self).pending_transaction_hashes@[i]@],
            final(self).blocks@ == old(self).blocks@,
            final(self).transaction_database@ == old(self).transaction_database@,
            final(self).transaction_block_hashes@ == old(self).transaction_block_hashes@,
            final(self).receipt_database@ == old(self).receipt_database@,
            final(self).receipt_statuses@ == old(self).receipt_statuses@,
            final(self).all_pending_transaction_hashes@
                == old(self).all_pending_transaction_hashes@,
            final(self).accounts@ == old(self).accounts@,
            final(self).world == old(self).world,
            final(self).world_history@ == old(self).world_history@,
    {
        let mut r: Vec<Transaction> = Vec::new();
        let n = self.pending_transaction_hashes.len();
        let mut i: usize = 0;
        while i < n
            invariant
                self.wf(),
                n == self.pending_transaction_hashes@.len(),
                self == old(self),
                i <= n,
                r@.len() == i,
                forall|k: int| 0 <= k < i ==> (#[trigger] r@[k])@ == self.tx_map()[
                    self.pending_transaction_hashes@[k]@],
            decreases n - i,
        {
            let h = &self.pending_transaction_hashes[i];
            match find_key(&self.transaction_database, h) {
                Some(j) => {
                    proof {
                        lemma_pairs_map_index(self.transaction_database@, j as int);
                    }
                    let t = self.transaction_database[j].1.duplicate();
                    r.push(t);
                },
                None => {
                    // Unreachable: the invariant indexes every queued hash.
                    proof {
                        lemma_pairs_map_absent(self.transaction_database@, h@);
                        assert(false);
                    }
                },
            }
            i = i + 1;
        }
        self.pending_transaction_hashes = Vec::new();
        r
    }

    /// All hashes ever queued, in order of arrival.
    pub fn all_pending_transaction_hashes(&self) -> (r: Vec<Vec<u8>>)
        ensures
            r.deep_view() == self.all_pending_transaction_hashes.deep_view(),
    {
        clone_bytes_vec(&self.all_pending_transaction_hashes)
    }

    /// The transaction index after a block lands: each body
    /// transaction's hash bound to the block's hash, in order.
    pub open spec fn tx_index_fold(
        m: Map<Seq<u8>, Seq<u8>>,
        ts: Seq<TransactionV>,
        h: Seq<u8>,
    ) -> Map<Seq<u8>, Seq<u8>>
        decreases ts.len(),
    {
        if ts.len() == 0 {
            m
        } else {
            Self::tx_index_fold(m, ts.drop_last(), h).insert(
                crate::crypto::tx_hash_sp(ts.last()),
                h,
            )
        }
    }

    /// Does a block continue this chain? Its number is the next one,
    /// its parent is the newest stored hash, its own hash is fresh,
    /// and the cumulative difficulty still fits.
    pub open spec fn accepts_block_sp(self, b: BlockV) -> bool {
        &&& b.header.number == self.blocks@.len()
        &&& b.header.number <= 0xffffffff
        &&& b.header.parent_hash == self.block_hashes@.last()@
        &&& (forall|i: int| 0 <= i < self.block_hashes@.len()
            ==> (#[trigger] self.block_hashes@[i])@ != header_hash_sp(b.header))
        &&& self.total_difficulties@.last().val() + b.header.difficulty
            < crate::u256::u256_bound()
    }

    /// Append a block: index it by number and hash, record where its
    /// transactions landed, and extend the cumulative difficulty.
    /// Refused exactly when the number, parent hash, hash freshness
    /// or difficulty sum does not continue the chain.
    #[verifier::rlimit(100)]
    #[verifier::spinoff_prover]
    pub fn append_block(&mut self, block: Block) -> (r: Result<Vec<u8>, Error>)
        requires
            old(self).wf(),
            wf_block(block@),
            block@.header.state_root == crate::trie::trie_root_of(
                crate::state::state_trie_map_sp(old(self).world.accounts@)),
        ensures
            final(self).wf(),
            r is Ok <==> old(self).accepts_block_sp(block@),
            r is Ok ==> r->Ok_0@ == header_hash_sp(block@.header),
            r is Ok ==> final(self).blocks@.len() == old(self).blocks@.len() + 1
                && final(self).blocks@.last()@ == block@
                && final(self).block_hashes@.last()@ == header_hash_sp(block@.header)
                && forall|i: int| 0 <= i < old(self).blocks@.len()
                    ==> final(self).blocks@[i] == old(self).blocks@[i],
            r is Ok ==> final(self).tx_block_map() == Self::tx_index_fold(
                old(self).tx_block_map(),
                block@.transactions,
                header_hash_sp(block@.header),
            ),
            r is Ok ==> final(self).total_difficulties@.last().val()
                == old(self).total_difficulties@.last().val() + block@.header.difficulty,
            final(self).transaction_database@ == old(self).transaction_database@,
            final(self).receipt_database@ == old(self).receipt_database@,
            final(self).receipt_statuses@ == old(self).receipt_statuses@,
            final(self).pending_transaction_hashes@
                == old(self).pending_transaction_hashes@,
            final(self).all_pending_transaction_hashes@
                == old(self).all_pending_transaction_hashes@,
            final(self).accounts@ == old(self).accounts@,
            final(self).world == old(self).world,
            r is Err ==> *final(self) == *old(self),
            r is Err ==> r->Err_0 == Error::InvalidParams,
    {
        let hash = block.header.hash();
        if block.header.number > 0xffffffff {
            return Err(Error::InvalidParams);
        }
        if !(block.header.number as usize == self.blocks.len()) {
            return Err(Error::InvalidParams);
        }
        if !bytes_eq(&block.header.parent_hash, &self.block_hashes[self.block_hashes.len()
            - 1]) {
            return Err(Error::InvalidParams);
        }
        // A duplicate header hash would break hash lookups.
        let mut i: usize = 0;
        while i < self.block_hashes.len()
            invariant
                *self == *old(self),
                old(self).wf(),
                hash@ == header_hash_sp(block@.header),
                i <= self.block_hashes@.len(),
                forall|k: int| 0 <= k < i ==> (#[trigger] self.block_hashes@[k])@ != hash@,
            decreases self.block_hashes@.len() - i,
        {
            if bytes_eq(&self.block_hashes[i], &hash) {
                return Err(Error::InvalidParams);
            }
            i = i + 1;
        }
        let parent_td = self.total_difficulties[self.total_difficulties.len() - 1];
        let td = match parent_td.checked_add(&block.header.difficulty) {
            Some(td) => td,
            None => {
                return Err(Error::InvalidParams);
            },
        };
        // Record, for each body transaction, the block it landed in.
        let ghost h = hash@;
        let ghost tv = block@.transactions;
        let ghost m0 = self.tx_block_map();
        let mut k: usize = 0;
        while k < block.transactions.len()
            invariant
                old(self).wf(),
                self.blocks@ == old(self).blocks@,
                self.block_hashes@ == old(self).block_hashes@,
                self.total_difficulties@ == old(self).total_difficulties@,
                self.world_history@ == old(self).world_history@,
                self.world == old(self).world,
                self.transaction_database@ == old(self).transaction_database@,
                self.receipt_database@ == old(self).receipt_database@,
                self.receipt_statuses@ == old(self).receipt_statuses@,
                self.pending_transaction_hashes@ == old(self).pending_transaction_hashes@,
                self.all_pending_transaction_hashes@
                    == old(self).all_pending_transaction_hashes@,
                self.accounts@ == old(self).accounts@,
                self.address_database@ == old(self).address_database@,
                h == header_hash_sp(block@.header),
                hash@ == h,
                tv == block@.transactions,
                m0 == old(self).tx_block_map(),
                keys_unique(self.transaction_block_hashes@),
                k <= tv.len(),
                pairs_map(self.transaction_block_hashes@) == Self::tx_index_fold(
                    m0,
                    tv.take(k as int),
                    h,
                ),
            decreases block.transactions@.len() - k,
        {
            let th = block.transactions[k].hash();
            let ghost pre = self.transaction_block_hashes@;
            match find_key(&self.transaction_block_hashes, &th) {
                Some(j) => {
                    proof {
                        lemma_chain_pairs_remove_hashes(pre, j as int);
                        crate::assoc::lemma_pairs_map_remove(pre, j as int);
                        crate::assoc::lemma_pairs_remove_key_absent(pre, j as int);
                    }
                    self.transaction_block_hashes.remove(j);
                },
                None => {
                    proof {
                        crate::assoc::lemma_pairs_map_absent(pre, th@);
                        assert(pairs_map(pre).remove(th@) =~= pairs_map(pre));
                    }
                },
            }
            let ghost mid = self.transaction_block_hashes@;
            self.transaction_block_hashes.push((th, clone_bytes(&hash)));
            proof {
                lemma_pairs_map_push(mid, self.transaction_block_hashes@.last());
                lemma_chain_unique_push_hashes(mid, self.transaction_block_hashes@.last());
                assert(pairs_map(self.transaction_block_hashes@)
                    =~= pairs_map(pre).insert(th@, h));
                assert(tv.take(k + 1).drop_last() =~= tv.take(k as int));
                assert(tv.take(k + 1).last() == tv[k as int]);
            }
            k = k + 1;
        }
        proof {
            assert(tv.take(tv.len() as int) =~= tv);
        }
        let snapshot = self.world.duplicate();
        self.world_history.push(snapshot);
        self.blocks.push(block);
        self.block_hashes.push(hash);
        self.total_difficulties.push(td);
        let out = clone_bytes(&self.block_hashes[self.block_hashes.len() - 1]);
        Ok(out)
    }
}

/// Uniqueness survives removing an entry.
proof fn lemma_chain_pairs_remove<T>(s: Seq<(Vec<u8>, T)>, i: int)
    requires
        keys_unique(s),
        0 <= i < s.len(),
    ensures
        keys_unique(s.remove(i)),
{
    let mid = s.remove(i);
    assert forall|q: int, r: int| 0 <= q < r < mid.len()
        implies (#[trigger] mid[q]).0@ != (#[trigger] mid[r]).0@ by {
        if q < i {
            if r < i {
                assert(mid[q] == s[q] && mid[r] == s[r]);
            } else {
                assert(mid[q] == s[q] && mid[r] == s[r + 1]);
            }
        } else {
            assert(mid[q] == s[q + 1] && mid[r] == s[r + 1]);
        }
    }
}

proof fn lemma_chain_pairs_remove_hashes(s: Seq<(Vec<u8>, Vec<u8>)>, i: int)
    requires
        keys_unique(s),
        0 <= i < s.len(),
    ensures
        keys_unique(s.remove(i)),
{
    lemma_chain_pairs_remove(s, i);
}

/// Uniqueness survives pushing a fresh key.
proof fn lemma_chain_unique_push<T>(
    mid: Seq<(Vec<u8>, T)>,
    p: (Vec<u8>, T),
    pre: Seq<(Vec<u8>, T)>,
    h: Seq<u8>,
)
    requires
        keys_unique(mid),
        forall|i: int| 0 <= i < mid.len() ==> (#[trigger] mid[i]).0@ != p.0@,
    ensures
        keys_unique(mid.push(p)),
{
    let post = mid.push(p);
    assert forall|q: int, r: int| 0 <= q < r < post.len()
        implies (#[trigger] post[q]).0@ != (#[trigger] post[r]).0@ by {
        if r + 1 == post.len() {
            assert(post[q] == mid[q]);
        } else {
            assert(post[q] == mid[q] && post[r] == mid[r]);
        }
    }
}

proof fn lemma_chain_unique_push_hashes(mid: Seq<(Vec<u8>, Vec<u8>)>, p: (Vec<u8>, Vec<u8>))
    requires
        keys_unique(mid),
        forall|i: int| 0 <= i < mid.len() ==> (#[trigger] mid[i]).0@ != p.0@,
    ensures
        keys_unique(mid.push(p)),
{
    lemma_chain_unique_push(mid, p, mid, p.0@);
}


/// The index of a hash in the stored list, newest match first.
pub open spec fn find_hash_sp(hs: Seq<Vec<u8>>, h: Seq<u8>) -> Option<int>
    decreases hs.len(),
{
    if hs.len() == 0 {
        None
    } else if hs.last()@ == h {
        Some(hs.len() - 1)
    } else {
        find_hash_sp(hs.drop_last(), h)
    }
}

/// The block a hash resolves to.
pub open spec fn block_by_hash_sp(st: MinerState, h: Seq<u8>) -> Option<BlockV> {
    match find_hash_sp(st.block_hashes@, h) {
        Some(i) => Some(st.blocks@[i]@),
        None => None,
    }
}

/// With distinct hashes, the match is exactly the holding index.
proof fn lemma_find_hash_at(hs: Seq<Vec<u8>>, h: Seq<u8>, i: int)
    requires
        forall|p: int, q: int| 0 <= p < q < hs.len()
            ==> (#[trigger] hs[p])@ != (#[trigger] hs[q])@,
        0 <= i < hs.len(),
        hs[i]@ == h,
    ensures
        find_hash_sp(hs, h) == Some(i),
    decreases hs.len(),
{
    if i == hs.len() - 1 {
    } else {
        assert(hs.last()@ != h);
        lemma_find_hash_at(hs.drop_last(), h, i);
    }
}

proof fn lemma_find_hash_absent(hs: Seq<Vec<u8>>, h: Seq<u8>)
    requires
        forall|p: int| 0 <= p < hs.len() ==> (#[trigger] hs[p])@ != h,
    ensures
        find_hash_sp(hs, h) is None,
    decreases hs.len(),
{
    if hs.len() > 0 {
        lemma_find_hash_absent(hs.drop_last(), h);
    }
}

impl MinerState {
    /// The block at a height.
    pub fn get_block_by_number(&self, index: usize) -> (r: Block)
        requires
            self.wf(),
            index < self.blocks@.len(),
        ensures
            r@ == self.blocks@[index as int]@,
    {
        self.blocks[index].duplicate()
    }

    /// The newest block.
    pub fn current_block(&self) -> (r: Block)
        requires
            self.wf(),
        ensures
            r@ == self.blocks@.last()@,
    {
        self.get_block_by_number(self.blocks.len() - 1)
    }

    /// The block with a given header hash, if any.
    #[verifier::rlimit(100)]
    #[verifier::spinoff_prover]
    #[verifier::loop_isolation(false)]
    pub fn get_block_by_hash(&self, key: &Vec<u8>) -> (r: Result<Block, Error>)
        requires
            self.wf(),
        ensures
            r is Ok <==> block_by_hash_sp(*self, key@) is Some,
            r is Ok ==> Some(r->Ok_0@) == block_by_hash_sp(*self, key@),
            r is Err ==> r->Err_0 == Error::NotFound,
    {
        let mut i: usize = 0;
        while i < self.block_hashes.len()
            invariant
                i <= self.block_hashes@.len(),
                forall|k: int| 0 <= k < i ==> (#[trigger] self.block_hashes@[k])@ != key@,
            decreases self.block_hashes@.len() - i,
        {
            if bytes_eq(&self.block_hashes[i], key) {
                proof {
                    lemma_find_hash_at(self.block_hashes@, key@, i as int);
                }
                return Ok(self.blocks[i].duplicate());
            }
            i = i + 1;
        }
        proof {
            lemma_find_hash_absent(self.block_hashes@, key@);
        }
        Err(Error::NotFound)
    }

    /// The indexed transaction with a given hash, if any.
    pub fn get_transaction_by_hash(&self, key: &Vec<u8>) -> (r: Result<Transaction, Error>)
        requires
            self.wf(),
        ensures
            r is Ok <==> self.tx_map().contains_key(key@),
            r is Ok ==> r->Ok_0@ == self.tx_map()[key@],
            r is Err ==> r->Err_0 == Error::NotFound,
    {
        let f = find_key(&self.transaction_database, key);
        proof {
            crate::assoc::lemma_find_characterizes(self.transaction_database@, key@, f);
        }
        match f {
            Some(i) => Ok(self.transaction_database[i].1.duplicate()),
            None => Err(Error::NotFound),
        }
    }

    /// The hash of the block a transaction landed in, if any.
    pub fn get_transaction_block_hash_by_hash(&self, key: &Vec<u8>) -> (r: Result<
        Vec<u8>,
        Error,
    >)
        requires
            self.wf(),
        ensures
            r is Ok <==> self.tx_block_map().contains_key(key@),
            r is Ok ==> r->Ok_0@ == self.tx_block_map()[key@],
            r is Err ==> r->Err_0 == Error::NotFound,
    {
        let f = find_key(&self.transaction_block_hashes, key);
        proof {
            crate::assoc::lemma_find_characterizes(self.transaction_block_hashes@, key@, f);
        }
        match f {
            Some(i) => Ok(clone_bytes(&self.transaction_block_hashes[i].1)),
            None => Err(Error::NotFound),
        }
    }

    /// The receipt of a mined transaction, if any.
    pub fn get_receipt_by_transaction_hash(&self, key: &Vec<u8>) -> (r: Result<Receipt, Error>)
        requires
            self.wf(),
        ensures
            r is Ok <==> self.receipt_map().contains_key(key@),
            r is Ok ==> r->Ok_0@ == self.receipt_map()[key@],
            r is Err ==> r->Err_0 == Error::NotFound,
    {
        let f = find_key(&self.receipt_database, key);
        proof {
            crate::assoc::lemma_find_characterizes(self.receipt_database@, key@, f);
        }
        match f {
            Some(i) => Ok(self.receipt_database[i].1.duplicate()),
            None => Err(Error::NotFound),
        }
    }

    /// Record the receipt of a transaction.
    pub fn insert_receipt(&mut self, transaction_hash: &Vec<u8>, receipt: Receipt)
        requires
            old(self).wf(),
        ensures
            final(self).wf(),
            final(self).receipt_map() == old(self).receipt_map().insert(
                transaction_hash@,
                receipt@,
            ),
            (*final(self) == MinerState {
                receipt_database: final(self).receipt_database,
                ..*old(self)
            }),
    {
        let ghost pre = self.receipt_database@;
        match find_key(&self.receipt_database, transaction_hash) {
            Some(i) => {
                proof {
                    lemma_chain_pairs_remove(pre, i as int);
                    crate::assoc::lemma_pairs_map_remove(pre, i as int);
                    crate::assoc::lemma_pairs_remove_key_absent(pre, i as int);
                }
                self.receipt_database.remove(i);
            },
            None => {
                proof {
                    crate::assoc::lemma_pairs_map_absent(pre, transaction_hash@);
                    assert(pairs_map(pre).remove(transaction_hash@) =~= pairs_map(pre));
                }
            },
        }
        let ghost mid = self.receipt_database@;
        self.receipt_database.push((clone_bytes(transaction_hash), receipt));
        proof {
            lemma_pairs_map_push(mid, self.receipt_database@.last());
            lemma_chain_unique_push(mid, self.receipt_database@.last(), pre, transaction_hash@);
            assert(pairs_map(self.receipt_database@)
                =~= pairs_map(pre).insert(transaction_hash@,
                self.receipt_database@.last().1@));
        }
    }

    /// Record whether a mined transaction exited successfully.
    pub fn set_receipt_status(&mut self, transaction_hash: &Vec<u8>, status: bool)
        requires
            old(self).wf(),
        ensures
            final(self).wf(),
            pairs_map(final(self).receipt_statuses@) == pairs_map(
                old(self).receipt_statuses@,
            ).insert(transaction_hash@, status),
            (*final(self) == MinerState {
                receipt_statuses: final(self).receipt_statuses,
                ..*old(self)
            }),
    {
        let ghost pre = self.receipt_statuses@;
        match find_key(&self.receipt_statuses, transaction_hash) {
            Some(i) => {
                proof {
                    lemma_chain_pairs_remove(pre, i as int);
                    crate::assoc::lemma_pairs_map_remove(pre, i as int);
                    crate::assoc::lemma_pairs_remove_key_absent(pre, i as int);
                }
                self.receipt_statuses.remove(i);
            },
            None => {
                proof {
                    crate::assoc::lemma_pairs_map_absent(pre, transaction_hash@);
                    assert(pairs_map(pre).remove(transaction_hash@) =~= pairs_map(pre));
                }
            },
        }
        let ghost mid = self.receipt_statuses@;
        self.receipt_statuses.push((clone_bytes(transaction_hash), status));
        proof {
            lemma_pairs_map_push(mid, self.receipt_statuses@.last());
            lemma_chain_unique_push(mid, self.receipt_statuses@.last(), pre,
                transaction_hash@);
            assert(pairs_map(self.receipt_statuses@)
                =~= pairs_map(pre).insert(transaction_hash@, status));
        }
    }

    /// Header and cumulative difficulty at a height.
    pub fn get_total_header_by_number(&self, index: usize) -> (r: TotalHeader)
        requires
            self.wf(),
            index < self.blocks@.len(),
        ensures
            r.header@ == self.blocks@[index as int]@.header,
            r.total_difficulty == self.total_difficulties@[index as int],
    {
        TotalHeader {
            header: self.blocks[index].header.duplicate(),
            total_difficulty: self.total_difficulties[index],
        }
    }

    /// Header and cumulative difficulty of the block with a hash.
    #[verifier::rlimit(100)]
    #[verifier::spinoff_prover]
    #[verifier::loop_isolation(false)]
    pub fn get_total_header_by_hash(&self, key: &Vec<u8>) -> (r: Result<TotalHeader, Error>)
        requires
            self.wf(),
        ensures
            r is Ok <==> find_hash_sp(self.block_hashes@, key@) is Some,
            r is Ok ==> r->Ok_0.header@ == self.blocks@[find_hash_sp(
                self.block_hashes@,
                key@,
            )->0]@.header,
            r is Err ==> r->Err_0 == Error::NotFound,
    {
        let mut i: usize = 0;
        while i < self.block_hashes.len()
            invariant
                i <= self.block_hashes@.len(),
                forall|k: int| 0 <= k < i ==> (#[trigger] self.block_hashes@[k])@ != key@,
            decreases self.block_hashes@.len() - i,
        {
            if bytes_eq(&self.block_hashes[i], key) {
                proof {
                    lemma_find_hash_at(self.block_hashes@, key@, i as int);
                }
                return Ok(self.get_total_header_by_number(i));
            }
            i = i + 1;
        }
        proof {
            lemma_find_hash_absent(self.block_hashes@, key@);
        }
        Err(Error::NotFound)
    }

    /// Hashes of the up-to-256 blocks below height `number`, newest
    /// first: what the execution environment answers BLOCKHASH from.
    pub fn get_last_256_block_hashes_by_number(&self, number: usize) -> (r: Vec<Vec<u8>>)
        requires
            self.wf(),
            number <= self.blocks@.len(),
        ensures
            r@.len() == if number < 256 {
                number as int
            } else {
                256int
            },
            forall|k: int| 0 <= k < r@.len()
                ==> (#[trigger] r@[k])@ == self.block_hashes@[number - 1 - k]@,
    {
        let mut r: Vec<Vec<u8>> = Vec::new();
        let mut k: usize = 0;
        let count: usize = if number < 256 {
            number
        } else {
            256
        };
        while k < count
            invariant
                self.wf(),
                count <= number <= self.blocks@.len(),
                k <= count,
                r@.len() == k,
                forall|q: int| 0 <= q < k
                    ==> (#[trigger] r@[q])@ == self.block_hashes@[number - 1 - q]@,
            decreases count - k,
        {
            r.push(clone_bytes(&self.block_hashes[number - 1 - k]));
            k = k + 1;
        }
        r
    }

    /// The last up-to-256 hashes below the newest block.
    pub fn get_last_256_block_hashes(&self) -> (r: Vec<Vec<u8>>)
        requires
            self.wf(),
        ensures
            r@.len() <= 256,
            forall|k: int| 0 <= k < r@.len()
                ==> (#[trigger] r@[k])@ == self.block_hashes@[self.blocks@.len() - 2 - k]@,
    {
        self.get_last_256_block_hashes_by_number(self.blocks.len() - 1)
    }

    /// The working world.
    pub fn stateful(&self) -> (r: &WorldState)
        ensures
            r == self.world,
    {
        &self.world
    }

    /// The working world, for the miner to mutate.
    pub fn stateful_mut(&mut self) -> (r: &mut WorldState)
        ensures
            *r == old(self).world,
            (*final(self) == MinerState { world: *final(r), ..*old(self) }),
    {
        &mut self.world
    }

    /// The world as it stood right after block `number`.
    pub fn stateful_at(&self, number: usize) -> (r: &WorldState)
        requires
            self.wf(),
            number < self.blocks@.len(),
        ensures
            r == self.world_history@[number as int],
            r.wf(),
    {
        &self.world_history[number]
    }

    /// The managed signing keys.
    pub fn accounts(&self) -> (r: Vec<Vec<u8>>)
        ensures
            r@.len() == self.accounts@.len(),
            forall|i: int| 0 <= i < r@.len() ==> (#[trigger] r@[i])@ == self.accounts@[i]@,
    {
        clone_bytes_vec(&self.accounts)
    }

    /// Add a managed signing key.
    pub fn append_account(&mut self, key: Vec<u8>)
        requires
            old(self).wf(),
        ensures
            final(self).wf(),
            final(self).accounts@ == old(self).accounts@.push(key),
            (*final(self) == MinerState { accounts: final(self).accounts, ..*old(self) }),
    {
        self.accounts.push(key);
    }

    /// Remember an address seen by the node.
    pub fn append_address(&mut self, address: Vec<u8>)
        requires
            old(self).wf(),
        ensures
            final(self).wf(),
            final(self).address_database@ == old(self).address_database@.push(address),
            final(self).blocks@ == old(self).blocks@,
    {
        self.address_database.push(address);
    }

    /// All remembered addresses.
    pub fn dump_addresses(&self) -> (r: Vec<Vec<u8>>)
        ensures
            r@.len() == self.address_database@.len(),
            forall|i: int| 0 <= i < r@.len()
                ==> (#[trigger] r@[i])@ == self.address_database@[i]@,
    {
        clone_bytes_vec(&self.address_database)
    }
}

/// Every stored block after genesis is linked to its parent: looking
/// its parent hash up yields the block whose number is one less.
pub proof fn lemma_parent_hash_links(st: MinerState, i: int)
    requires
        st.wf(),
        1 <= i < st.blocks@.len(),
    ensures
        block_by_hash_sp(st, st.blocks@[i]@.header.parent_hash) == Some(st.blocks@[i - 1]@),
        st.blocks@[i - 1]@.header.number + 1 == st.blocks@[i]@.header.number,
{
    assert(st.blocks@[i]@.header.parent_hash == st.block_hashes@[i - 1]@);
    lemma_find_hash_at(st.block_hashes@, st.block_hashes@[i - 1]@, i - 1);
}


/// A submitted transaction is queryable by hash at once, while its
/// receipt appears only after a mining round records one: queueing
/// inserts into the transaction index and leaves receipts untouched.
pub proof fn lemma_submitted_before_receipt(
    pre: MinerState,
    post: MinerState,
    h: Seq<u8>,
    t: TransactionV,
)
    requires
        post.tx_map() == pre.tx_map().insert(h, t),
        post.receipt_database@ == pre.receipt_database@,
    ensures
        post.tx_map().contains_key(h),
        post.tx_map()[h] == t,
        post.receipt_map() == pre.receipt_map(),
        !pre.receipt_map().contains_key(h) ==> !post.receipt_map().contains_key(h),
{
}

} // verus!
