//! Log, block and pending-transaction filters: each keeps a cursor,
//! `get_changes` returns the delta since the last poll and advances
//! it, `get_logs` re-reads the whole configured range.

use vstd::prelude::*;
use crate::chain::MinerState;
use crate::error::Error;
use crate::types::{Log, LogV, Receipt};
use crate::util::{bytes_eq, clone_bytes, clone_bytes_vec};

verus! {

/// One topic position: anything, or one of a set of 32-byte topics.
pub enum TopicFilter {
    All,
    Or(Vec<Vec<u8>>),
}

pub ghost enum TopicFilterV {
    All,
    Or(Seq<Seq<u8>>),
}

impl View for TopicFilter {
    type V = TopicFilterV;

    open spec fn view(&self) -> TopicFilterV {
        match self {
            TopicFilter::All => TopicFilterV::All,
            TopicFilter::Or(ts) => TopicFilterV::Or(
                Seq::new(ts@.len(), |i: int| ts@[i]@),
            ),
        }
    }
}

/// A log filter: a block range, an optional address, and the four
/// topic positions.
pub struct LogFilter {
    pub from_block: usize,
    pub to_block: usize,
    pub address: Option<Vec<u8>>,
    pub topics: Vec<TopicFilter>,
}

pub ghost struct LogFilterV {
    pub from_block: nat,
    pub to_block: nat,
    pub address: Option<Seq<u8>>,
    pub topics: Seq<TopicFilterV>,
}

impl View for LogFilter {
    type V = LogFilterV;

    open spec fn view(&self) -> LogFilterV {
        LogFilterV {
            from_block: self.from_block as nat,
            to_block: self.to_block as nat,
            address: match self.address {
                Some(a) => Some(a@),
                None => None,
            },
            topics: Seq::new(self.topics@.len(), |i: int| self.topics@[i]@),
        }
    }
}

/// Does position `k` of the log satisfy one topic filter?
pub open spec fn topic_matches_sp(f: TopicFilterV, topics: Seq<Seq<u8>>, k: int) -> bool {
    match f {
        TopicFilterV::All => true,
        TopicFilterV::Or(ts) => k < topics.len() && exists|j: int|
            0 <= j < ts.len() && ts[j] == topics[k],
    }
}

/// A log matches iff the address agrees (or none is configured) and
/// every configured topic position agrees.
pub open spec fn log_matches_sp(f: LogFilterV, l: LogV) -> bool {
    &&& match f.address {
        Some(a) => a == l.address,
        None => true,
    }
    &&& forall|k: int| 0 <= k < f.topics.len()
        ==> topic_matches_sp(#[trigger] f.topics[k], l.topics, k)
}

/// Does position `k` of the log satisfy one topic filter?
fn topic_matches(f: &TopicFilter, topics: &Vec<Vec<u8>>, k: usize) -> (r: bool)
    ensures
        r == topic_matches_sp(f@, Seq::new(topics@.len(), |i: int| topics@[i]@), k as int),
{
    let ghost tv = Seq::new(topics@.len(), |i: int| topics@[i]@);
    match f {
        TopicFilter::All => true,
        TopicFilter::Or(ts) => {
            if k >= topics.len() {
                return false;
            }
            proof {
                assert(f@ is Or);
                assert(f@->Or_0.len() == ts@.len());
                assert(forall|i: int| 0 <= i < ts@.len()
                    ==> #[trigger] f@->Or_0[i] == ts@[i]@);
            }
            let mut j: usize = 0;
            while j < ts.len()
                invariant
                    tv == Seq::new(topics@.len(), |i: int| topics@[i]@),
                    f@ is Or,
                    f@->Or_0.len() == ts@.len(),
                    forall|i: int| 0 <= i < ts@.len()
                        ==> #[trigger] f@->Or_0[i] == ts@[i]@,
                    k < topics@.len(),
                    j <= ts@.len(),
                    forall|q: int| 0 <= q < j
                        ==> (#[trigger] ts@[q])@ != tv[k as int],
                decreases ts@.len() - j,
            {
                let e = bytes_eq(&ts[j], &topics[k]);
                if e {
                    proof {
                        let fs = f@->Or_0;
                        assert(fs[j as int] == ts@[j as int]@);
                        assert(tv[k as int] == topics@[k as int]@);
                        assert(fs[j as int] == tv[k as int]);
                    }
                    return true;
                }
                j = j + 1;
            }
            proof {
                let fs = f@->Or_0;
                assert forall|q: int| 0 <= q < fs.len()
                    implies #[trigger] fs[q] != tv[k as int] by {
                    assert(fs[q] == ts@[q]@);
                }
            }
            false
        },
    }
}

/// Does the log match the filter's address and topics?
pub fn log_matches(f: &LogFilter, l: &Log) -> (r: bool)
    ensures
        r == log_matches_sp(f@, l@),
{
    match &f.address {
        Some(a) => {
            if !bytes_eq(a, &l.address) {
                return false;
            }
        },
        None => {
        },
    }
    let mut k: usize = 0;
    while k < f.topics.len()
        invariant
            k <= f.topics@.len(),
            forall|q: int| 0 <= q < k
                ==> topic_matches_sp(#[trigger] f@.topics[q], l@.topics, q),
        decreases f.topics@.len() - k,
    {
        let m = topic_matches(&f.topics[k], &l.topics, k);
        proof {
            assert(f@.topics[k as int] == f.topics@[k as int]@);
            assert(l@.topics =~= Seq::new(l.topics@.len(), |i: int| l.topics@[i]@));
        }
        if !m {
            return false;
        }
        k = k + 1;
    }
    true
}

/// One matching log together with where it was found.
pub struct LogHit {
    pub block_number: u64,
    pub transaction_hash: Vec<u8>,
    pub transaction_index: usize,
    pub log: Log,
}

pub ghost struct LogHitV {
    pub block_number: nat,
    pub transaction_hash: Seq<u8>,
    pub transaction_index: nat,
    pub log: LogV,
}

impl View for LogHit {
    type V = LogHitV;

    open spec fn view(&self) -> LogHitV {
        LogHitV {
            block_number: self.block_number as nat,
            transaction_hash: self.transaction_hash@,
            transaction_index: self.transaction_index as nat,
            log: self.log@,
        }
    }
}

/// The matching predicate of a filter, as a function value.
pub open spec fn match_pred(f: LogFilterV) -> spec_fn(LogV) -> bool {
    |l: LogV| log_matches_sp(f, l)
}

/// How a matching log becomes a hit at a place in the chain.
pub open spec fn hit_maker(n: nat, h: Seq<u8>, j: nat) -> spec_fn(LogV) -> LogHitV {
    |l: LogV|
        LogHitV { block_number: n, transaction_hash: h, transaction_index: j, log: l }
}

/// The hits of one transaction of one block: the matching logs of
/// its receipt, in order; none when no receipt is recorded.
pub open spec fn tx_hits_sp(st: MinerState, n: int, j: int, f: LogFilterV) -> Seq<LogHitV> {
    let b = st.blocks@[n]@;
    let h = crate::crypto::tx_hash_sp(b.transactions[j]);
    if st.receipt_map().contains_key(h) {
        let logs = st.receipt_map()[h].logs;
        logs.filter(match_pred(f)).map_values(hit_maker(n as nat, h, j as nat))
    } else {
        Seq::empty()
    }
}

/// The hits of the first `j` transactions of block `n`.
pub open spec fn block_hits_sp(st: MinerState, n: int, j: int, f: LogFilterV) -> Seq<LogHitV>
    decreases j,
{
    if j <= 0 {
        Seq::empty()
    } else {
        block_hits_sp(st, n, j - 1, f) + tx_hits_sp(st, n, j - 1, f)
    }
}

/// The hits of blocks `from ..= upto`, in block order.
pub open spec fn range_hits_sp(st: MinerState, from: int, upto: int, f: LogFilterV) -> Seq<
    LogHitV,
>
    decreases upto - from + 1,
{
    if upto < from {
        Seq::empty()
    } else {
        range_hits_sp(st, from, upto - 1, f) + block_hits_sp(
            st,
            upto,
            st.blocks@[upto]@.transactions.len() as int,
            f,
        )
    }
}

/// The matching logs of one receipt, as hits at a chain position.
#[verifier::rlimit(100)]
#[verifier::spinoff_prover]
fn matching_hits(receipt: &Receipt, f: &LogFilter, n: u64, j: usize, h: &Vec<u8>) -> (r: Vec<
    LogHit,
>)
    ensures
        Seq::new(r@.len(), |i: int| r@[i]@) == receipt@.logs.filter(match_pred(f@)).map_values(
            hit_maker(n as nat, h@, j as nat),
        ),
{
    let ghost logs = receipt@.logs;
    let ghost pred = match_pred(f@);
    let ghost mk = hit_maker(n as nat, h@, j as nat);
    let mut out: Vec<LogHit> = Vec::new();
    let mut q: usize = 0;
    proof {
        assert(logs.take(0).filter(pred) =~= Seq::<LogV>::empty());
        assert(Seq::new(out@.len(), |i: int| out@[i]@)
            =~= logs.take(0).filter(pred).map_values(mk));
    }
    while q < receipt.logs.len()
        invariant
            logs == receipt@.logs,
            pred == match_pred(f@),
            mk == hit_maker(n as nat, h@, j as nat),
            q <= receipt.logs@.len(),
            receipt.logs@.len() == logs.len(),
            forall|y: int| 0 <= y < logs.len()
                ==> (#[trigger] receipt.logs@[y])@ == logs[y],
            Seq::new(out@.len(), |i: int| out@[i]@) == logs.take(q as int).filter(
                pred,
            ).map_values(mk),
        decreases receipt.logs@.len() - q,
    {
        proof {
            assert(logs.take(q + 1).drop_last() =~= logs.take(q as int));
            assert(logs.take(q + 1).last() == logs[q as int]);
        }
        let m = log_matches(f, &receipt.logs[q]);
        if m {
            let hit = LogHit {
                block_number: n,
                transaction_hash: clone_bytes(h),
                transaction_index: j,
                log: receipt.logs[q].duplicate(),
            };
            proof {
                reveal_with_fuel(Seq::<LogV>::filter, 2);
                assert(pred(logs[q as int]));
                assert(logs.take(q + 1) =~= logs.take(q as int) + seq![logs[q as int]]);
                Seq::filter_distributes_over_add(
                    logs.take(q as int),
                    seq![logs[q as int]],
                    pred,
                );
                assert(seq![logs[q as int]].filter(pred) =~= seq![logs[q as int]]) by {
                    assert(seq![logs[q as int]].drop_last() =~= Seq::<LogV>::empty());
                    assert(Seq::<LogV>::empty().filter(pred) =~= Seq::<LogV>::empty());
                }
                assert(logs.take(q + 1).filter(pred)
                    =~= logs.take(q as int).filter(pred).push(logs[q as int]));
                assert(hit@ == mk(logs[q as int]));
            }
            out.push(hit);
            proof {
                let pre_map = logs.take(q as int).filter(pred).map_values(mk);
                let post_map = logs.take(q + 1).filter(pred).map_values(mk);
                assert(post_map =~= pre_map.push(hit@));
                assert(Seq::new(out@.len(), |i: int| out@[i]@) =~= pre_map.push(hit@));
            }
        } else {
            proof {
                reveal_with_fuel(Seq::<LogV>::filter, 2);
                assert(!pred(logs[q as int]));
                assert(logs.take(q + 1) =~= logs.take(q as int) + seq![logs[q as int]]);
                Seq::filter_distributes_over_add(
                    logs.take(q as int),
                    seq![logs[q as int]],
                    pred,
                );
                assert(seq![logs[q as int]].filter(pred) =~= Seq::<LogV>::empty()) by {
                    assert(seq![logs[q as int]].drop_last() =~= Seq::<LogV>::empty());
                    assert(Seq::<LogV>::empty().filter(pred) =~= Seq::<LogV>::empty());
                }
                assert(logs.take(q + 1).filter(pred) =~= logs.take(q as int).filter(pred));
            }
        }
        q = q + 1;
    }
    proof {
        assert(logs.take(logs.len() as int) =~= logs);
    }
    out
}

/// Move hits onto the end of the output.
fn append_hits(out: &mut Vec<LogHit>, mut hits: Vec<LogHit>)
    ensures
        Seq::new(final(out)@.len(), |i: int| final(out)@[i]@) == Seq::new(
            old(out)@.len(),
            |i: int| old(out)@[i]@,
        ) + Seq::new(hits@.len(), |i: int| hits@[i]@),
{
    let ghost a = Seq::new(out@.len(), |i: int| out@[i]@);
    let ghost b = Seq::new(hits@.len(), |i: int| hits@[i]@);
    out.append(&mut hits);
    proof {
        assert(Seq::new(out@.len(), |i: int| out@[i]@) =~= a + b);
    }
}

/// The hits of every transaction of block `n`.
#[verifier::rlimit(100)]
#[verifier::spinoff_prover]
fn collect_block_hits(st: &MinerState, n: usize, f: &LogFilter) -> (r: Vec<LogHit>)
    requires
        st.wf(),
        n < st.blocks@.len(),
    ensures
        Seq::new(r@.len(), |i: int| r@[i]@) == block_hits_sp(
            *st,
            n as int,
            st.blocks@[n as int]@.transactions.len() as int,
            f@,
        ),
{
    let block = st.get_block_by_number(n);
    let tc = block.transactions.len();
    let mut out: Vec<LogHit> = Vec::new();
    let mut j: usize = 0;
    proof {
        assert(block_hits_sp(*st, n as int, 0, f@) =~= Seq::<LogHitV>::empty());
        assert(Seq::new(out@.len(), |i: int| out@[i]@) =~= Seq::<LogHitV>::empty());
    }
    while j < tc
        invariant
            st.wf(),
            n < st.blocks@.len(),
            block@ == st.blocks@[n as int]@,
            tc == block.transactions@.len(),
            j <= tc,
            Seq::new(out@.len(), |i: int| out@[i]@) == block_hits_sp(
                *st,
                n as int,
                j as int,
                f@,
            ),
        decreases tc - j,
    {
        let h = block.transactions[j].hash();
        proof {
            assert(h@ == crate::crypto::tx_hash_sp(
                st.blocks@[n as int]@.transactions[j as int]));
        }
        match st.get_receipt_by_transaction_hash(&h) {
            Ok(receipt) => {
                let hits = matching_hits(&receipt, f, n as u64, j, &h);
                proof {
                    assert(tx_hits_sp(*st, n as int, j as int, f@)
                        == receipt@.logs.filter(match_pred(f@)).map_values(
                        hit_maker(n as nat, h@, j as nat)));
                }
                append_hits(&mut out, hits);
                proof {
                    assert(Seq::new(out@.len(), |i: int| out@[i]@)
                        =~= block_hits_sp(*st, n as int, j + 1, f@));
                }
            },
            Err(e) => {
                proof {
                    assert(tx_hits_sp(*st, n as int, j as int, f@)
                        =~= Seq::<LogHitV>::empty());
                    assert(Seq::new(out@.len(), |i: int| out@[i]@)
                        =~= block_hits_sp(*st, n as int, j + 1, f@));
                }
            },
        }
        j = j + 1;
    }
    out
}

/// All logs in the filter's configured range that match its address
/// and topics, in chain order: the whole-range query behind both
/// `get_filter_logs` and `get_logs`.
#[verifier::rlimit(100)]
#[verifier::spinoff_prover]
#[verifier::loop_isolation(false)]
pub fn get_logs(st: &MinerState, f: &LogFilter) -> (r: Result<Vec<LogHit>, Error>)
    requires
        st.wf(),
    ensures
        r is Ok <==> f.to_block < st.blocks@.len() && f.from_block <= f.to_block,
        r is Ok ==> Seq::new(r->Ok_0@.len(), |i: int| r->Ok_0@[i]@) == range_hits_sp(
            *st,
            f.from_block as int,
            f.to_block as int,
            f@,
        ),
        r is Err ==> r->Err_0 == Error::NotFound,
{
    if !(f.to_block < st.blocks.len() && f.from_block <= f.to_block) {
        return Err(Error::NotFound);
    }
    let mut out: Vec<LogHit> = Vec::new();
    let mut n: usize = f.from_block;
    proof {
        assert(range_hits_sp(*st, f.from_block as int, f.from_block as int - 1, f@)
            =~= Seq::<LogHitV>::empty());
        assert(Seq::new(out@.len(), |i: int| out@[i]@) =~= Seq::<LogHitV>::empty());
    }
    while n <= f.to_block
        invariant
            f.from_block <= n <= f.to_block + 1,
            Seq::new(out@.len(), |i: int| out@[i]@) == range_hits_sp(
                *st,
                f.from_block as int,
                n as int - 1,
                f@,
            ),
        decreases f.to_block + 1 - n,
    {
        let hits = collect_block_hits(st, n, f);
        append_hits(&mut out, hits);
        proof {
            assert(range_hits_sp(*st, f.from_block as int, n as int, f@)
                == range_hits_sp(*st, f.from_block as int, n as int - 1, f@)
                    + block_hits_sp(*st, n as int,
                    st.blocks@[n as int]@.transactions.len() as int, f@));
        }
        n = n + 1;
    }
    Ok(out)
}


/// A registered filter: its kind and its cursor.
pub enum FilterKind {
    /// A log filter; its cursor is the last block already reported.
    Log(LogFilter, usize),
    /// A block filter: the last block already reported.
    Block(usize),
    /// A pending-transaction filter: how many queued hashes were
    /// already reported.
    Pending(usize),
}

/// What one poll of a filter returns.
pub enum FilterChanges {
    Hashes(Vec<Vec<u8>>),
    Logs(Vec<LogHit>),
}

/// The registry of live filters.
pub struct FilterManager {
    pub filters: Vec<(u64, FilterKind)>,
    pub next_id: u64,
}

/// The hashes of the blocks above `last`, up to the chain's head:
/// what a block filter's poll returns.
pub open spec fn block_changes_sp(st: MinerState, last: int) -> Seq<Seq<u8>> {
    let height = st.blocks@.len() - 1;
    if last >= height {
        Seq::empty()
    } else {
        Seq::new((height - last) as nat, |k: int| st.block_hashes@[last + 1 + k]@)
    }
}

/// The queued transaction hashes past the first `last`: what a
/// pending-transaction filter's poll returns.
pub open spec fn pending_changes_sp(st: MinerState, last: int) -> Seq<Seq<u8>> {
    let total = st.all_pending_transaction_hashes@.len();
    if last >= total {
        Seq::empty()
    } else {
        Seq::new(
            (total - last) as nat,
            |k: int| st.all_pending_transaction_hashes@[last + k]@,
        )
    }
}

/// Polling a filter whose cursor already stands at the head returns
/// nothing: with no block in between, a second poll is empty.
pub proof fn lemma_poll_idempotent(st: MinerState, last: int)
    requires
        last >= st.blocks@.len() - 1,
    ensures
        block_changes_sp(st, last).len() == 0,
{
}

/// The same, for the pending-transaction cursor.
pub proof fn lemma_pending_poll_idempotent(st: MinerState, last: int)
    requires
        last >= st.all_pending_transaction_hashes@.len(),
    ensures
        pending_changes_sp(st, last).len() == 0,
{
}

/// What one poll of a log filter returns: the matching logs of the
/// blocks past the cursor, clipped to the configured range.
#[verifier::opaque]
pub open spec fn log_changes_sp(st: MinerState, f: LogFilterV, cursor: nat) -> Seq<LogHitV> {
    let height = st.blocks@.len() - 1;
    let upto = if f.to_block <= height {
        f.to_block as int
    } else {
        height
    };
    let from = if f.from_block > cursor + 1 {
        f.from_block as int
    } else {
        (cursor + 1) as int
    };
    if from <= upto {
        range_hits_sp(st, from, upto, LogFilterV {
            from_block: from as nat,
            to_block: upto as nat,
            ..f
        })
    } else {
        Seq::empty()
    }
}

/// With the cursor at the head, a log filter's poll is empty too.
pub proof fn lemma_log_poll_idempotent(st: MinerState, f: LogFilterV, cursor: nat)
    requires
        cursor >= st.blocks@.len() - 1,
    ensures
        log_changes_sp(st, f, cursor).len() == 0,
{
    reveal(log_changes_sp);
}

impl FilterManager {
    pub fn new() -> (r: FilterManager)
        ensures
            r.filters@.len() == 0,
            r.next_id == 0,
    {
        FilterManager { filters: Vec::new(), next_id: 0 }
    }

    /// Register a filter under a fresh id; refused only when the id
    /// space is exhausted.
    pub fn install(&mut self, kind: FilterKind) -> (r: Result<u64, Error>)
        ensures
            r is Ok <==> old(self).next_id < 0xffffffffffffffff,
            r is Ok ==> r->Ok_0 == old(self).next_id
                && final(self).filters@ == old(self).filters@.push(
                (old(self).next_id, kind))
                && final(self).next_id == old(self).next_id + 1,
            r is Err ==> *final(self) == *old(self),
            r is Err ==> r->Err_0 == Error::InvalidParams,
    {
        if self.next_id == 0xffffffffffffffff {
            return Err(Error::InvalidParams);
        }
        let id = self.next_id;
        self.next_id = self.next_id + 1;
        self.filters.push((id, kind));
        Ok(id)
    }

    /// The position of a filter id.
    fn find(&self, id: u64) -> (r: Option<usize>)
        ensures
            r is Some ==> r->0 < self.filters@.len() && self.filters@[r->0 as int].0 == id,
            r is None ==> forall|i: int| 0 <= i < self.filters@.len()
                ==> (#[trigger] self.filters@[i]).0 != id,
    {
        let mut i: usize = 0;
        while i < self.filters.len()
            invariant
                i <= self.filters@.len(),
                forall|j: int| 0 <= j < i ==> (#[trigger] self.filters@[j]).0 != id,
            decreases self.filters@.len() - i,
        {
            if self.filters[i].0 == id {
                return Some(i);
            }
            i = i + 1;
        }
        None
    }

    /// Drop a filter; says exactly whether it existed.
    pub fn uninstall(&mut self, id: u64) -> (r: bool)
        ensures
            r <==> exists|i: int| 0 <= i < old(self).filters@.len()
                && (#[trigger] old(self).filters@[i]).0 == id,
            r ==> exists|i: int| 0 <= i < old(self).filters@.len()
                && (#[trigger] old(self).filters@[i]).0 == id
                && final(self).filters@ == old(self).filters@.remove(i),
            !r ==> *final(self) == *old(self),
    {
        match self.find(id) {
            Some(i) => {
                self.filters.remove(i);
                proof {
                    assert(0 <= i < old(self).filters@.len()
                        && old(self).filters@[i as int].0 == id
                        && self.filters@ == old(self).filters@.remove(i as int));
                }
                true
            },
            None => false,
        }
    }

    /// Poll a filter: return what is new since the last poll and
    /// advance its cursor to the present, leaving the configured
    /// range untouched. Succeeds exactly for an installed id.
    #[verifier::rlimit(100)]
    #[verifier::spinoff_prover]
    pub fn get_changes(&mut self, id: u64, st: &MinerState) -> (r: Result<
        FilterChanges,
        Error,
    >)
        requires
            st.wf(),
        ensures
            r is Ok <==> exists|i: int| 0 <= i < old(self).filters@.len()
                && (#[trigger] old(self).filters@[i]).0 == id,
            r is Ok ==> exists|i: int|
                {
                    &&& 0 <= i < old(self).filters@.len()
                    &&& (#[trigger] old(self).filters@[i]).0 == id
                    &&& final(self).filters@.len() == old(self).filters@.len()
                    &&& (forall|j: int| 0 <= j < old(self).filters@.len() && j != i
                        ==> final(self).filters@[j] == old(self).filters@[j])
                    &&& final(self).filters@[i].0 == id
                    &&& match old(self).filters@[i].1 {
                        FilterKind::Block(last) => {
                            &&& (r->Ok_0 matches FilterChanges::Hashes(hs)
                                && Seq::new(hs@.len(), |k: int| hs@[k]@)
                                    == block_changes_sp(*st, last as int))
                            &&& final(self).filters@[i].1 == FilterKind::Block(
                                (st.blocks@.len() - 1) as usize)
                        },
                        FilterKind::Pending(last) => {
                            &&& (r->Ok_0 matches FilterChanges::Hashes(hs)
                                && Seq::new(hs@.len(), |k: int| hs@[k]@)
                                    == pending_changes_sp(*st, last as int))
                            &&& final(self).filters@[i].1 == FilterKind::Pending(
                                st.all_pending_transaction_hashes@.len() as usize)
                        },
                        FilterKind::Log(f, cursor) => {
                            &&& (r->Ok_0 matches FilterChanges::Logs(hits)
                                && Seq::new(hits@.len(), |k: int| hits@[k]@)
                                    == log_changes_sp(*st, f@, cursor as nat))
                            &&& (final(self).filters@[i].1 matches FilterKind::Log(f2, c2)
                                && f2@ == f@ && c2 == st.blocks@.len() - 1)
                        },
                    }
                },
            r is Err ==> r->Err_0 == Error::NotFound && *final(self) == *old(self),
    {
        let i = match self.find(id) {
            Some(i) => i,
            None => {
                return Err(Error::NotFound);
            },
        };
        let height = st.block_height();
        // Copy the filter out, so the slot can be rewritten.
        let kind_copy: FilterKind = match &self.filters[i].1 {
            FilterKind::Block(last) => FilterKind::Block(*last),
            FilterKind::Pending(last) => FilterKind::Pending(*last),
            FilterKind::Log(f, cursor) => {
                let copied = LogFilter {
                    from_block: f.from_block,
                    to_block: f.to_block,
                    address: match &f.address {
                        Some(a) => Some(clone_bytes(a)),
                        None => None,
                    },
                    topics: clone_topic_filters(&f.topics),
                };
                proof {
                    let fv = self.filters@[i as int].1->Log_0@;
                    assert(copied@.topics =~= fv.topics);
                    assert(copied@ == fv);
                }
                FilterKind::Log(copied, *cursor)
            },
        };
        match kind_copy {
            FilterKind::Block(last) => {
                let hs = poll_block(st, last);
                self.filters.set(i, (id, FilterKind::Block(height)));
                Ok(FilterChanges::Hashes(hs))
            },
            FilterKind::Pending(last) => {
                let hs = poll_pending(st, last);
                let total = st.all_pending_transaction_hashes.len();
                self.filters.set(i, (id, FilterKind::Pending(total)));
                Ok(FilterChanges::Hashes(hs))
            },
            FilterKind::Log(f, cursor) => {
                let hits = poll_log(st, &f, cursor);
                self.filters.set(i, (id, FilterKind::Log(f, height)));
                Ok(FilterChanges::Logs(hits))
            },
        }
    }
}

/// The block hashes above the cursor, up to the head.
#[verifier::rlimit(100)]
#[verifier::spinoff_prover]
fn poll_block(st: &MinerState, last: usize) -> (r: Vec<Vec<u8>>)
    requires
        st.wf(),
    ensures
        Seq::new(r@.len(), |k: int| r@[k]@) == block_changes_sp(*st, last as int),
{
    let height = st.block_height();
    let mut hs: Vec<Vec<u8>> = Vec::new();
    let mut n: usize = last;
    while n < height
        invariant
            st.block_hashes@.len() == st.blocks@.len(),
            st.blocks@.len() >= 1,
            height == st.blocks@.len() - 1,
            n >= last,
            n <= height || n == last,
            hs@.len() == n - last,
            forall|k: int| 0 <= k < hs@.len()
                ==> (#[trigger] hs@[k])@ == st.block_hashes@[last + 1 + k]@,
        decreases height - n,
    {
        hs.push(clone_bytes(&st.block_hashes[n + 1]));
        n = n + 1;
    }
    proof {
        assert(Seq::new(hs@.len(), |k: int| hs@[k]@) =~= block_changes_sp(*st, last as int));
    }
    hs
}

/// The queued transaction hashes past the cursor.
#[verifier::rlimit(100)]
#[verifier::spinoff_prover]
fn poll_pending(st: &MinerState, last: usize) -> (r: Vec<Vec<u8>>)
    requires
        st.wf(),
    ensures
        Seq::new(r@.len(), |k: int| r@[k]@) == pending_changes_sp(*st, last as int),
{
    let total = st.all_pending_transaction_hashes.len();
    let mut hs: Vec<Vec<u8>> = Vec::new();
    let mut n: usize = last;
    while n < total
        invariant
            total == st.all_pending_transaction_hashes@.len(),
            n >= last,
            n <= total || n == last,
            hs@.len() == n - last,
            forall|k: int| 0 <= k < hs@.len()
                ==> (#[trigger] hs@[k])@ == st.all_pending_transaction_hashes@[last + k]@,
        decreases total - n,
    {
        hs.push(clone_bytes(&st.all_pending_transaction_hashes[n]));
        n = n + 1;
    }
    proof {
        assert(Seq::new(hs@.len(), |k: int| hs@[k]@)
            =~= pending_changes_sp(*st, last as int));
    }
    hs
}

/// The matching logs of the blocks past the cursor, clipped to the
/// filter's configured range.
/// The hits of one clipped window of the chain, under the filter's
/// address and topics.
#[verifier::rlimit(100)]
#[verifier::spinoff_prover]
fn poll_log_window(st: &MinerState, f: &LogFilter, from: usize, upto: usize) -> (r: Vec<
    LogHit,
>)
    requires
        st.wf(),
        from <= upto,
        upto < st.blocks@.len(),
    ensures
        Seq::new(r@.len(), |k: int| r@[k]@) == range_hits_sp(
            *st,
            from as int,
            upto as int,
            (LogFilterV { from_block: from as nat, to_block: upto as nat, ..f@ }),
        ),
{
    let window = LogFilter {
        from_block: from,
        to_block: upto,
        address: match &f.address {
            Some(a) => Some(clone_bytes(a)),
            None => None,
        },
        topics: clone_topic_filters(&f.topics),
    };
    proof {
        assert(window@.topics =~= f@.topics);
        assert(window@ == (LogFilterV {
            from_block: from as nat,
            to_block: upto as nat,
            ..f@
        }));
    }
    match get_logs(st, &window) {
        Ok(h) => h,
        Err(e) => {
            // Unreachable: the window is in range.
            proof {
                assert(false);
            }
            Vec::new()
        },
    }
}

/// The matching logs of the blocks past the cursor, clipped to the
/// filter's configured range.
#[verifier::rlimit(100)]
#[verifier::spinoff_prover]
fn poll_log(st: &MinerState, f: &LogFilter, cursor: usize) -> (r: Vec<LogHit>)
    requires
        st.wf(),
    ensures
        Seq::new(r@.len(), |k: int| r@[k]@) == log_changes_sp(*st, f@, cursor as nat),
{
    let height = st.block_height();
    if cursor == usize::MAX {
        // The cursor is past every representable height.
        let hits: Vec<LogHit> = Vec::new();
        proof {
            reveal(log_changes_sp);
            assert(Seq::new(hits@.len(), |k: int| hits@[k]@) =~= Seq::<LogHitV>::empty());
            assert(log_changes_sp(*st, f@, cursor as nat) =~= Seq::<LogHitV>::empty());
        }
        return hits;
    }
    let upto = if f.to_block <= height {
        f.to_block
    } else {
        height
    };
    let lastp = cursor + 1;
    let from = if f.from_block > lastp {
        f.from_block
    } else {
        lastp
    };
    let ghost sfrom: int = if f@.from_block > cursor + 1 {
        f@.from_block as int
    } else {
        (cursor + 1) as int
    };
    let ghost supto: int = if f@.to_block <= st.blocks@.len() - 1 {
        f@.to_block as int
    } else {
        st.blocks@.len() - 1
    };
    proof {
        assert(upto as int == supto);
        assert(from <= upto ==> from as int == sfrom);
        assert(sfrom > supto ==> from > upto);
    }
    if from <= upto {
        let r = poll_log_window(st, f, from, upto);
        proof {
            reveal(log_changes_sp);
            assert(Seq::new(r@.len(), |k: int| r@[k]@) == log_changes_sp(
                *st,
                f@,
                cursor as nat,
            ));
        }
        r
    } else {
        let hits: Vec<LogHit> = Vec::new();
        proof {
            reveal(log_changes_sp);
            assert(Seq::new(hits@.len(), |k: int| hits@[k]@) =~= Seq::<LogHitV>::empty());
            assert(log_changes_sp(*st, f@, cursor as nat) =~= Seq::<LogHitV>::empty());
        }
        hits
    }
}

/// A copy of a topic-filter list, equal in view.
fn clone_topic_filters(ts: &Vec<TopicFilter>) -> (r: Vec<TopicFilter>)
    ensures
        r@.len() == ts@.len(),
        forall|i: int| 0 <= i < ts@.len() ==> (#[trigger] r@[i])@ == ts@[i]@,
{
    let mut r: Vec<TopicFilter> = Vec::new();
    let mut i: usize = 0;
    while i < ts.len()
        invariant
            i <= ts@.len(),
            r@.len() == i,
            forall|j: int| 0 <= j < i ==> (#[trigger] r@[j])@ == ts@[j]@,
        decreases ts@.len() - i,
    {
        let one = match &ts[i] {
            TopicFilter::All => TopicFilter::All,
            TopicFilter::Or(xs) => {
                let c = TopicFilter::Or(clone_bytes_vec(xs));
                proof {
                    assert(c@->Or_0 =~= ts@[i as int]@->Or_0);
                }
                c
            },
        };
        proof {
            assert(one@ == ts@[i as int]@);
        }
        r.push(one);
        i = i + 1;
    }
    r
}

} // verus!
