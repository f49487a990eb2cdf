//! The world state: every account with its balance, nonce, code and
//! storage, and the commit step that applies what a transaction's
//! execution changed.

use vstd::prelude::*;
use crate::u256::{U256, u256_bound};
use crate::util::{bytes_eq, clone_bytes};
use crate::types::wf_address;
use crate::error::Error;

verus! {

/// One occupied storage slot.
#[derive(Clone, Debug)]
pub struct StorageEntry {
    pub key: U256,
    pub value: U256,
}

/// One account of the world.
#[derive(Debug)]
pub struct AccountEntry {
    pub address: Vec<u8>,
    pub nonce: U256,
    pub balance: U256,
    pub code: Vec<u8>,
    pub storage: Vec<StorageEntry>,
}

pub ghost struct AccountM {
    pub nonce: nat,
    pub balance: nat,
    pub code: Seq<u8>,
    pub storage: Map<nat, nat>,
}

/// The slot map a storage list stands for.
pub open spec fn storage_map(s: Seq<StorageEntry>) -> Map<nat, nat>
    decreases s.len(),
{
    if s.len() == 0 {
        Map::empty()
    } else {
        storage_map(s.drop_last()).insert(s.last().key.val(), s.last().value.val())
    }
}

pub open spec fn storage_keys_unique(s: Seq<StorageEntry>) -> bool {
    forall|i: int, j: int| 0 <= i < j < s.len()
        ==> (#[trigger] s[i]).key.val() != (#[trigger] s[j]).key.val()
}

pub open spec fn storage_no_zeros(s: Seq<StorageEntry>) -> bool {
    forall|i: int| 0 <= i < s.len() ==> (#[trigger] s[i]).value.val() != 0
}

impl View for AccountEntry {
    type V = AccountM;

    open spec fn view(&self) -> AccountM {
        AccountM {
            nonce: self.nonce.val(),
            balance: self.balance.val(),
            code: self.code@,
            storage: storage_map(self.storage@),
        }
    }
}

pub open spec fn wf_account_entry(a: AccountEntry) -> bool {
    &&& wf_address(a.address@)
    &&& storage_keys_unique(a.storage@)
    &&& storage_no_zeros(a.storage@)
}

/// The whole world: a set of accounts.
#[derive(Debug)]
pub struct WorldState {
    pub accounts: Vec<AccountEntry>,
}

/// The account map a world stands for.
pub open spec fn world_map(s: Seq<AccountEntry>) -> Map<Seq<u8>, AccountM>
    decreases s.len(),
{
    if s.len() == 0 {
        Map::empty()
    } else {
        world_map(s.drop_last()).insert(s.last().address@, s.last()@)
    }
}

pub open spec fn world_keys_unique(s: Seq<AccountEntry>) -> bool {
    forall|i: int, j: int| 0 <= i < j < s.len()
        ==> (#[trigger] s[i]).address@ != (#[trigger] s[j]).address@
}

impl View for WorldState {
    type V = Map<Seq<u8>, AccountM>;

    open spec fn view(&self) -> Map<Seq<u8>, AccountM> {
        world_map(self.accounts@)
    }
}

impl WorldState {
    pub open spec fn wf(self) -> bool {
        &&& world_keys_unique(self.accounts@)
        &&& forall|i: int| 0 <= i < self.accounts@.len()
            ==> wf_account_entry(#[trigger] self.accounts@[i])
    }
}

pub proof fn lemma_world_map_index(s: Seq<AccountEntry>, i: int)
    requires
        world_keys_unique(s),
        0 <= i < s.len(),
    ensures
        world_map(s).contains_key(s[i].address@),
        world_map(s)[s[i].address@] == s[i]@,
    decreases s.len(),
{
    if i + 1 < s.len() {
        lemma_world_map_index(s.drop_last(), i);
    }
}

pub proof fn lemma_world_map_absent(s: Seq<AccountEntry>, a: Seq<u8>)
    requires
        forall|i: int| 0 <= i < s.len() ==> (#[trigger] s[i]).address@ != a,
    ensures
        !world_map(s).contains_key(a),
    decreases s.len(),
{
    if s.len() > 0 {
        lemma_world_map_absent(s.drop_last(), a);
    }
}

pub proof fn lemma_world_map_push(s: Seq<AccountEntry>, a: AccountEntry)
    ensures
        world_map(s.push(a)) == world_map(s).insert(a.address@, a@),
{
    assert(s.push(a).drop_last() =~= s);
}

/// Removing the entry that holds a key removes the key from the map.
pub proof fn lemma_world_map_remove(s: Seq<AccountEntry>, i: int)
    requires
        world_keys_unique(s),
        0 <= i < s.len(),
    ensures
        world_map(s.remove(i)) == world_map(s).remove(s[i].address@),
    decreases s.len(),
{
    if i == s.len() - 1 {
        assert(s.remove(i) =~= s.drop_last());
        lemma_world_map_absent(s.drop_last(), s[i].address@);
        assert(world_map(s.drop_last()).remove(s[i].address@) =~= world_map(s.drop_last()));
        assert(world_map(s).remove(s[i].address@)
            =~= world_map(s.drop_last()).insert(s.last().address@, s.last()@).remove(
            s[i].address@));
        assert(world_map(s).remove(s[i].address@) =~= world_map(s.drop_last()));
    } else {
        lemma_world_map_remove(s.drop_last(), i);
        assert(s.remove(i).drop_last() =~= s.drop_last().remove(i));
        assert(s.remove(i).last() == s.last());
        assert(world_map(s.remove(i)) == world_map(s.drop_last().remove(i)).insert(
            s.last().address@, s.last()@));
        assert(world_map(s.remove(i))
            =~= world_map(s).remove(s[i].address@));
    }
}

/// The slot lookup helpers, mirrored on storage lists.
pub proof fn lemma_storage_map_index(s: Seq<StorageEntry>, i: int)
    requires
        storage_keys_unique(s),
        0 <= i < s.len(),
    ensures
        storage_map(s).contains_key(s[i].key.val()),
        storage_map(s)[s[i].key.val()] == s[i].value.val(),
    decreases s.len(),
{
    if i + 1 < s.len() {
        lemma_storage_map_index(s.drop_last(), i);
    }
}

pub proof fn lemma_storage_map_absent(s: Seq<StorageEntry>, k: nat)
    requires
        forall|i: int| 0 <= i < s.len() ==> (#[trigger] s[i]).key.val() != k,
    ensures
        !storage_map(s).contains_key(k),
    decreases s.len(),
{
    if s.len() > 0 {
        lemma_storage_map_absent(s.drop_last(), k);
    }
}

pub proof fn lemma_storage_map_push(s: Seq<StorageEntry>, e: StorageEntry)
    ensures
        storage_map(s.push(e)) == storage_map(s).insert(e.key.val(), e.value.val()),
{
    assert(s.push(e).drop_last() =~= s);
}

pub proof fn lemma_storage_map_remove(s: Seq<StorageEntry>, i: int)
    requires
        storage_keys_unique(s),
        0 <= i < s.len(),
    ensures
        storage_map(s.remove(i)) == storage_map(s).remove(s[i].key.val()),
    decreases s.len(),
{
    if i == s.len() - 1 {
        assert(s.remove(i) =~= s.drop_last());
        lemma_storage_map_absent(s.drop_last(), s[i].key.val());
        assert(storage_map(s).remove(s[i].key.val()) =~= storage_map(s.drop_last()));
    } else {
        lemma_storage_map_remove(s.drop_last(), i);
        assert(s.remove(i).drop_last() =~= s.drop_last().remove(i));
        assert(s.remove(i).last() == s.last());
        assert(storage_map(s.remove(i))
            =~= storage_map(s).remove(s[i].key.val()));
    }
}

impl WorldState {
    pub fn empty() -> (r: WorldState)
        ensures
            r@ == Map::<Seq<u8>, AccountM>::empty(),
            r.wf(),
    {
        WorldState { accounts: Vec::new() }
    }

    /// Index of the account at an address.
    fn find_account(&self, address: &Vec<u8>) -> (r: Option<usize>)
        ensures
            r is Some ==> r->0 < self.accounts@.len()
                && self.accounts@[r->0 as int].address@ == address@,
            r is None ==> forall|i: int| 0 <= i < self.accounts@.len()
                ==> (#[trigger] self.accounts@[i]).address@ != address@,
    {
        let mut i: usize = 0;
        while i < self.accounts.len()
            invariant
                i <= self.accounts@.len(),
                forall|j: int| 0 <= j < i
                    ==> (#[trigger] self.accounts@[j]).address@ != address@,
            decreases self.accounts@.len() - i,
        {
            if bytes_eq(&self.accounts[i].address, address) {
                return Some(i);
            }
            i = i + 1;
        }
        None
    }

    /// Is the address occupied?
    pub fn has_account(&self, address: &Vec<u8>) -> (r: bool)
        requires
            self.wf(),
        ensures
            r == self@.contains_key(address@),
    {
        let f = self.find_account(address);
        proof {
            match f {
                Some(i) => {
                    lemma_world_map_index(self.accounts@, i as int);
                },
                None => {
                    lemma_world_map_absent(self.accounts@, address@);
                },
            }
        }
        f.is_some()
    }

    /// The balance at an address; zero when the account is absent.
    pub fn balance_of(&self, address: &Vec<u8>) -> (r: U256)
        requires
            self.wf(),
        ensures
            r.val() == if self@.contains_key(address@) {
                self@[address@].balance
            } else {
                0nat
            },
    {
        match self.find_account(address) {
            Some(i) => {
                proof {
                    lemma_world_map_index(self.accounts@, i as int);
                }
                self.accounts[i].balance
            },
            None => {
                proof {
                    lemma_world_map_absent(self.accounts@, address@);
                }
                U256::zero()
            },
        }
    }

    /// The nonce at an address; zero when the account is absent.
    pub fn nonce_of(&self, address: &Vec<u8>) -> (r: U256)
        requires
            self.wf(),
        ensures
            r.val() == if self@.contains_key(address@) {
                self@[address@].nonce
            } else {
                0nat
            },
    {
        match self.find_account(address) {
            Some(i) => {
                proof {
                    lemma_world_map_index(self.accounts@, i as int);
                }
                self.accounts[i].nonce
            },
            None => {
                proof {
                    lemma_world_map_absent(self.accounts@, address@);
                }
                U256::zero()
            },
        }
    }

    /// The code at an address; empty when the account is absent.
    pub fn code_of(&self, address: &Vec<u8>) -> (r: Vec<u8>)
        requires
            self.wf(),
        ensures
            r@ == if self@.contains_key(address@) {
                self@[address@].code
            } else {
                Seq::<u8>::empty()
            },
    {
        match self.find_account(address) {
            Some(i) => {
                proof {
                    lemma_world_map_index(self.accounts@, i as int);
                }
                clone_bytes(&self.accounts[i].code)
            },
            None => {
                proof {
                    lemma_world_map_absent(self.accounts@, address@);
                }
                Vec::new()
            },
        }
    }

    /// The storage slot at an address; zero for any unset slot and
    /// for absent accounts.
    pub fn storage_of(&self, address: &Vec<u8>, key: &U256) -> (r: U256)
        requires
            self.wf(),
        ensures
            r.val() == if self@.contains_key(address@)
                && self@[address@].storage.contains_key(key.val()) {
                self@[address@].storage[key.val()]
            } else {
                0nat
            },
    {
        match self.find_account(address) {
            Some(i) => {
                proof {
                    lemma_world_map_index(self.accounts@, i as int);
                    assert(wf_account_entry(self.accounts@[i as int]));
                }
                let n = self.accounts[i].storage.len();
                let mut j: usize = 0;
                while j < n
                    invariant
                        i < self.accounts@.len(),
                        n == self.accounts@[i as int].storage@.len(),
                        self@.contains_key(address@),
                        self@[address@] == self.accounts@[i as int]@,
                        storage_keys_unique(self.accounts@[i as int].storage@),
                        j <= n,
                        forall|k: int| 0 <= k < j
                            ==> (#[trigger] self.accounts@[i as int].storage@[k]).key.val()
                                != key.val(),
                    decreases n - j,
                {
                    if self.accounts[i].storage[j].key == *key {
                        proof {
                            lemma_storage_map_index(self.accounts@[i as int].storage@, j as int);
                        }
                        return self.accounts[i].storage[j].value;
                    }
                    proof {
                        if self.accounts@[i as int].storage@[j as int].key.val() == key.val() {
                            crate::u256::lemma_u256_val_inj(
                                self.accounts@[i as int].storage@[j as int].key, *key);
                        }
                    }
                    j = j + 1;
                }
                proof {
                    lemma_storage_map_absent(self.accounts@[i as int].storage@, key.val());
                }
                U256::zero()
            },
            None => {
                proof {
                    lemma_world_map_absent(self.accounts@, address@);
                }
                U256::zero()
            },
        }
    }
}


/// One storage write a transaction produced; a zero value deletes.
#[derive(Clone, Debug)]
pub struct StorageDelta {
    pub key: U256,
    pub value: U256,
}

/// One account mutation produced by executing a transaction.
#[derive(Debug)]
pub enum AccountChange {
    /// Update an existing account and merge its storage writes.
    Full {
        address: Vec<u8>,
        nonce: U256,
        balance: U256,
        changing_storage: Vec<StorageDelta>,
        code: Vec<u8>,
    },
    /// Credit an account, creating it when absent.
    IncreaseBalance { address: Vec<u8>, amount: U256 },
    /// Debit an existing account; draining below zero is refused.
    DecreaseBalance { address: Vec<u8>, amount: U256 },
    /// Install a fresh account, or remove the address when the
    /// execution left it nonexistent.
    Create {
        address: Vec<u8>,
        nonce: U256,
        balance: U256,
        storage: Vec<StorageDelta>,
        code: Vec<u8>,
        exists: bool,
    },
}

pub ghost enum ChangeV {
    Full { address: Seq<u8>, nonce: nat, balance: nat, storage: Seq<(nat, nat)>, code: Seq<u8> },
    IncreaseBalance { address: Seq<u8>, amount: nat },
    DecreaseBalance { address: Seq<u8>, amount: nat },
    Create {
        address: Seq<u8>,
        nonce: nat,
        balance: nat,
        storage: Seq<(nat, nat)>,
        code: Seq<u8>,
        exists: bool,
    },
}

pub open spec fn deltas_seq(s: Seq<StorageDelta>) -> Seq<(nat, nat)> {
    Seq::new(s.len(), |i: int| (s[i].key.val(), s[i].value.val()))
}

impl View for AccountChange {
    type V = ChangeV;

    open spec fn view(&self) -> ChangeV {
        match self {
            AccountChange::Full { address, nonce, balance, changing_storage, code } =>
                ChangeV::Full {
                    address: address@,
                    nonce: nonce.val(),
                    balance: balance.val(),
                    storage: deltas_seq(changing_storage@),
                    code: code@,
                },
            AccountChange::IncreaseBalance { address, amount } => ChangeV::IncreaseBalance {
                address: address@,
                amount: amount.val(),
            },
            AccountChange::DecreaseBalance { address, amount } => ChangeV::DecreaseBalance {
                address: address@,
                amount: amount.val(),
            },
            AccountChange::Create { address, nonce, balance, storage, code, exists } =>
                ChangeV::Create {
                    address: address@,
                    nonce: nonce.val(),
                    balance: balance.val(),
                    storage: deltas_seq(storage@),
                    code: code@,
                    exists: *exists,
                },
        }
    }
}

pub open spec fn changes_seq(s: Seq<AccountChange>) -> Seq<ChangeV> {
    Seq::new(s.len(), |i: int| s[i]@)
}

/// One storage write applied to a slot map.
pub open spec fn apply_delta_m(st: Map<nat, nat>, d: (nat, nat)) -> Map<nat, nat> {
    if d.1 == 0 {
        st.remove(d.0)
    } else {
        st.insert(d.0, d.1)
    }
}

/// A series of storage writes applied in order.
pub open spec fn apply_deltas_m(st: Map<nat, nat>, ds: Seq<(nat, nat)>) -> Map<nat, nat>
    decreases ds.len(),
{
    if ds.len() == 0 {
        st
    } else {
        apply_delta_m(apply_deltas_m(st, ds.drop_last()), ds.last())
    }
}

/// One account change applied to a world map; `None` is the fatal
/// case — a missing account or an arithmetic violation.
pub open spec fn apply_change_m(m: Map<Seq<u8>, AccountM>, c: ChangeV) -> Option<
    Map<Seq<u8>, AccountM>,
> {
    match c {
        ChangeV::Full { address, nonce, balance, storage, code } => {
            if m.contains_key(address) && balance < u256_bound() && nonce < u256_bound() {
                let a = m[address];
                Some(m.insert(address, AccountM {
                    nonce,
                    balance,
                    code,
                    storage: apply_deltas_m(a.storage, storage),
                }))
            } else {
                None
            }
        },
        ChangeV::IncreaseBalance { address, amount } => {
            if m.contains_key(address) {
                if m[address].balance + amount < u256_bound() {
                    Some(m.insert(address, AccountM {
                        balance: m[address].balance + amount,
                        ..m[address]
                    }))
                } else {
                    None
                }
            } else {
                Some(m.insert(address, AccountM {
                    nonce: 0,
                    balance: amount,
                    code: Seq::empty(),
                    storage: Map::empty(),
                }))
            }
        },
        ChangeV::DecreaseBalance { address, amount } => {
            if m.contains_key(address) && amount <= m[address].balance {
                Some(m.insert(address, AccountM {
                    balance: (m[address].balance - amount) as nat,
                    ..m[address]
                }))
            } else {
                None
            }
        },
        ChangeV::Create { address, nonce, balance, storage, code, exists } => {
            if !exists {
                Some(m.remove(address))
            } else if balance < u256_bound() && nonce < u256_bound() {
                Some(m.insert(address, AccountM {
                    nonce,
                    balance,
                    code,
                    storage: apply_deltas_m(Map::empty(), storage),
                }))
            } else {
                None
            }
        },
    }
}

/// A series of account changes applied in order.
pub open spec fn apply_changes_m(m: Map<Seq<u8>, AccountM>, cs: Seq<ChangeV>) -> Option<
    Map<Seq<u8>, AccountM>,
>
    decreases cs.len(),
{
    if cs.len() == 0 {
        Some(m)
    } else {
        match apply_changes_m(m, cs.drop_last()) {
            None => None,
            Some(m2) => apply_change_m(m2, cs.last()),
        }
    }
}

/// Merge storage writes into a storage list, keeping it canonical:
/// unique keys and no zero values.
fn merge_deltas(storage: &mut Vec<StorageEntry>, deltas: &Vec<StorageDelta>)
    requires
        storage_keys_unique(old(storage)@),
        storage_no_zeros(old(storage)@),
    ensures
        storage_keys_unique(final(storage)@),
        storage_no_zeros(final(storage)@),
        storage_map(final(storage)@) == apply_deltas_m(
            storage_map(old(storage)@),
            deltas_seq(deltas@),
        ),
{
    let ghost m0 = storage_map(storage@);
    let ghost dv = deltas_seq(deltas@);
    let mut k: usize = 0;
    while k < deltas.len()
        invariant
            dv == deltas_seq(deltas@),
            k <= deltas@.len(),
            storage_keys_unique(storage@),
            storage_no_zeros(storage@),
            storage_map(storage@) == apply_deltas_m(m0, dv.take(k as int)),
        decreases deltas@.len() - k,
    {
        let key = deltas[k].key;
        let value = deltas[k].value;
        // Find the slot, if present.
        let mut f: Option<usize> = None;
        let n = storage.len();
        let mut j: usize = 0;
        while j < n && f.is_none()
            invariant
                n == storage@.len(),
                j <= n,
                f is Some ==> f->0 < n && storage@[f->0 as int].key.val() == key.val(),
                f is None ==> forall|q: int| 0 <= q < j
                    ==> (#[trigger] storage@[q]).key.val() != key.val(),
            decreases n - j,
        {
            if storage[j].key == key {
                f = Some(j);
                proof {
                    assert(storage@[j as int].key.val() == key.val());
                }
            } else {
                proof {
                    if storage@[j as int].key.val() == key.val() {
                        crate::u256::lemma_u256_val_inj(storage@[j as int].key, key);
                    }
                }
            }
            j = j + 1;
        }
        let ghost pre = storage@;
        if value.is_zero() {
            match f {
                Some(i) => {
                    proof {
                        lemma_storage_map_remove(pre, i as int);
                    }
                    storage.remove(i);
                },
                None => {
                    proof {
                        lemma_storage_map_absent(pre, key.val());
                        assert(storage_map(pre).remove(key.val()) =~= storage_map(pre));
                    }
                },
            }
        } else {
            match f {
                Some(i) => {
                    proof {
                        lemma_storage_map_remove(pre, i as int);
                    }
                    storage.remove(i);
                    let ghost mid = storage@;
                    proof {
                        lemma_storage_map_push(mid, StorageEntry { key, value });
                        assert(storage_map(pre).remove(key.val()).insert(key.val(), value.val())
                            =~= storage_map(pre).insert(key.val(), value.val()));
                    }
                    storage.push(StorageEntry { key, value });
                    proof {
                        assert forall|q: int, r: int| 0 <= q < r < storage@.len()
                            implies (#[trigger] storage@[q]).key.val()
                                != (#[trigger] storage@[r]).key.val() by {
                            if r + 1 == storage@.len() {
                                assert(storage@[q] == mid[q]);
                                if q < i {
                                    assert(mid[q] == pre[q]);
                                    assert(pre[q].key.val() != pre[i as int].key.val());
                                } else {
                                    assert(mid[q] == pre[q + 1]);
                                    assert(pre[q + 1].key.val() != pre[i as int].key.val());
                                }
                            } else {
                                assert(storage@[q] == mid[q] && storage@[r] == mid[r]);
                            }
                        }
                    }
                },
                None => {
                    proof {
                        lemma_storage_map_push(pre, StorageEntry { key, value });
                    }
                    storage.push(StorageEntry { key, value });
                    proof {
                        assert forall|q: int, r: int| 0 <= q < r < storage@.len()
                            implies (#[trigger] storage@[q]).key.val()
                                != (#[trigger] storage@[r]).key.val() by {
                            if r + 1 == storage@.len() {
                                assert(storage@[q] == pre[q]);
                                assert(pre[q].key.val() != key.val());
                            } else {
                                assert(storage@[q] == pre[q] && storage@[r] == pre[r]);
                            }
                        }
                    }
                },
            }
        }
        proof {
            assert(dv.take(k + 1).drop_last() =~= dv.take(k as int));
            assert(dv.take(k + 1).last() == dv[k as int]);
            assert(dv[k as int] == (key.val(), value.val()));
        }
        k = k + 1;
    }
    proof {
        assert(dv.take(dv.len() as int) =~= dv);
    }
}


/// A change names a proper address and in-range amounts.
pub open spec fn wf_change(c: ChangeV) -> bool {
    match c {
        ChangeV::Full { address, .. } => wf_address(address),
        ChangeV::IncreaseBalance { address, .. } => wf_address(address),
        ChangeV::DecreaseBalance { address, .. } => wf_address(address),
        ChangeV::Create { address, .. } => wf_address(address),
    }
}

proof fn lemma_unique_after_replace(pre: Seq<AccountEntry>, i: int, x: AccountEntry)
    requires
        world_keys_unique(pre),
        0 <= i < pre.len(),
        x.address@ == pre[i].address@,
    ensures
        world_keys_unique(pre.remove(i).push(x)),
{
    let mid = pre.remove(i);
    let post = mid.push(x);
    assert forall|q: int, r: int| 0 <= q < r < post.len()
        implies (#[trigger] post[q]).address@ != (#[trigger] post[r]).address@ by {
        if r + 1 == post.len() {
            assert(post[q] == mid[q]);
            if q < i {
                assert(mid[q] == pre[q]);
                assert(pre[q].address@ != pre[i].address@);
            } else {
                assert(mid[q] == pre[q + 1]);
                assert(pre[q + 1].address@ != pre[i].address@);
            }
        } else {
            assert(post[q] == mid[q] && post[r] == mid[r]);
            if q < i {
                if r < i {
                    assert(mid[q] == pre[q] && mid[r] == pre[r]);
                } else {
                    assert(mid[q] == pre[q] && mid[r] == pre[r + 1]);
                }
            } else {
                assert(mid[q] == pre[q + 1] && mid[r] == pre[r + 1]);
            }
        }
    }
}

proof fn lemma_unique_after_remove(pre: Seq<AccountEntry>, i: int)
    requires
        world_keys_unique(pre),
        0 <= i < pre.len(),
    ensures
        world_keys_unique(pre.remove(i)),
{
    let mid = pre.remove(i);
    assert forall|q: int, r: int| 0 <= q < r < mid.len()
        implies (#[trigger] mid[q]).address@ != (#[trigger] mid[r]).address@ by {
        if q < i {
            if r < i {
                assert(mid[q] == pre[q] && mid[r] == pre[r]);
            } else {
                assert(mid[q] == pre[q] && mid[r] == pre[r + 1]);
            }
        } else {
            assert(mid[q] == pre[q + 1] && mid[r] == pre[r + 1]);
        }
    }
}

proof fn lemma_unique_after_push(pre: Seq<AccountEntry>, x: AccountEntry)
    requires
        world_keys_unique(pre),
        forall|i: int| 0 <= i < pre.len() ==> (#[trigger] pre[i]).address@ != x.address@,
    ensures
        world_keys_unique(pre.push(x)),
{
    let post = pre.push(x);
    assert forall|q: int, r: int| 0 <= q < r < post.len()
        implies (#[trigger] post[q]).address@ != (#[trigger] post[r]).address@ by {
        if r + 1 == post.len() {
            assert(post[q] == pre[q]);
        } else {
            assert(post[q] == pre[q] && post[r] == pre[r]);
        }
    }
}

/// A `None` fold stays `None` however far it goes on.
proof fn lemma_apply_changes_prefix_none(m: Map<Seq<u8>, AccountM>, cs: Seq<ChangeV>, j: int)
    requires
        0 <= j <= cs.len(),
        apply_changes_m(m, cs.take(j)) is None,
    ensures
        apply_changes_m(m, cs) is None,
    decreases cs.len() - j,
{
    if j == cs.len() {
        assert(cs.take(j) =~= cs);
    } else {
        assert(cs.take(j + 1).drop_last() =~= cs.take(j));
        lemma_apply_changes_prefix_none(m, cs, j + 1);
    }
}

impl WorldState {
    /// Apply one account change; `Err` leaves the world untouched.
    #[verifier::rlimit(100)]
    #[verifier::spinoff_prover]
    fn apply_change(&mut self, c: &AccountChange) -> (r: Result<(), Error>)
        requires
            old(self).wf(),
            wf_change(c@),
        ensures
            final(self).wf(),
            r is Ok <==> apply_change_m(old(self)@, c@) is Some,
            r is Ok ==> Some(final(self)@) == apply_change_m(old(self)@, c@),
            r is Err ==> final(self)@ == old(self)@,
            r is Err ==> r->Err_0 == Error::InvalidParams,
    {
        let ghost pre = self.accounts@;
        match c {
            AccountChange::Full { address, nonce, balance, changing_storage, code } => {
                let i = match self.find_account(address) {
                    Some(i) => i,
                    None => {
                        proof {
                            lemma_world_map_absent(pre, address@);
                        }
                        return Err(Error::InvalidParams);
                    },
                };
                proof {
                    lemma_world_map_index(pre, i as int);
                    assert(wf_account_entry(pre[i as int]));
                    nonce.lemma_val_bound();
                    balance.lemma_val_bound();
                    lemma_world_map_remove(pre, i as int);
                }
                let mut entry = self.accounts.remove(i);
                entry.nonce = *nonce;
                entry.balance = *balance;
                entry.code = clone_bytes(code);
                merge_deltas(&mut entry.storage, changing_storage);
                proof {
                    lemma_unique_after_replace(pre, i as int, entry);
                    lemma_world_map_push(self.accounts@, entry);
                    assert(world_map(pre).remove(pre[i as int].address@).insert(
                        entry.address@, entry@)
                        =~= world_map(pre).insert(entry.address@, entry@));
                }
                self.accounts.push(entry);
                Ok(())
            },
            AccountChange::IncreaseBalance { address, amount } => {
                match self.find_account(address) {
                    Some(i) => {
                        proof {
                            lemma_world_map_index(pre, i as int);
                            assert(wf_account_entry(pre[i as int]));
                            lemma_world_map_remove(pre, i as int);
                        }
                        let nb = match self.accounts[i].balance.checked_add(amount) {
                            Some(nb) => nb,
                            None => {
                                return Err(Error::InvalidParams);
                            },
                        };
                        let mut entry = self.accounts.remove(i);
                        entry.balance = nb;
                        proof {
                            nb.lemma_val_bound();
                            lemma_unique_after_replace(pre, i as int, entry);
                            lemma_world_map_push(self.accounts@, entry);
                            assert(world_map(pre).remove(pre[i as int].address@).insert(
                                entry.address@, entry@)
                                =~= world_map(pre).insert(entry.address@, entry@));
                        }
                        self.accounts.push(entry);
                        Ok(())
                    },
                    None => {
                        proof {
                            lemma_world_map_absent(pre, address@);
                        }
                        let ghost mm = world_map(pre);
                        let entry = AccountEntry {
                            address: clone_bytes(address),
                            nonce: U256::zero(),
                            balance: *amount,
                            code: Vec::new(),
                            storage: Vec::new(),
                        };
                        proof {
                            lemma_unique_after_push(pre, entry);
                            lemma_world_map_push(pre, entry);
                            assert(entry@.storage =~= Map::<nat, nat>::empty());
                            assert(entry@.code =~= Seq::<u8>::empty());
                        }
                        self.accounts.push(entry);
                        Ok(())
                    },
                }
            },
            AccountChange::DecreaseBalance { address, amount } => {
                let i = match self.find_account(address) {
                    Some(i) => i,
                    None => {
                        proof {
                            lemma_world_map_absent(pre, address@);
                        }
                        return Err(Error::InvalidParams);
                    },
                };
                proof {
                    lemma_world_map_index(pre, i as int);
                    assert(wf_account_entry(pre[i as int]));
                    lemma_world_map_remove(pre, i as int);
                }
                let nb = match self.accounts[i].balance.checked_sub(amount) {
                    Some(nb) => nb,
                    None => {
                        return Err(Error::InvalidParams);
                    },
                };
                let mut entry = self.accounts.remove(i);
                entry.balance = nb;
                proof {
                    lemma_unique_after_replace(pre, i as int, entry);
                    lemma_world_map_push(self.accounts@, entry);
                    assert(world_map(pre).remove(pre[i as int].address@).insert(
                        entry.address@, entry@)
                        =~= world_map(pre).insert(entry.address@, entry@));
                }
                self.accounts.push(entry);
                Ok(())
            },
            AccountChange::Create { address, nonce, balance, storage, code, exists } => {
                if !*exists {
                    match self.find_account(address) {
                        Some(i) => {
                            proof {
                                lemma_world_map_index(pre, i as int);
                                lemma_world_map_remove(pre, i as int);
                                lemma_unique_after_remove(pre, i as int);
                            }
                            self.accounts.remove(i);
                            Ok(())
                        },
                        None => {
                            proof {
                                lemma_world_map_absent(pre, address@);
                                assert(world_map(pre).remove(address@) =~= world_map(pre));
                            }
                            Ok(())
                        },
                    }
                } else {
                    let mut st: Vec<StorageEntry> = Vec::new();
                    proof {
                        assert(storage_map(st@) =~= Map::<nat, nat>::empty());
                    }
                    merge_deltas(&mut st, storage);
                    let entry = AccountEntry {
                        address: clone_bytes(address),
                        nonce: *nonce,
                        balance: *balance,
                        code: clone_bytes(code),
                        storage: st,
                    };
                    proof {
                        nonce.lemma_val_bound();
                        balance.lemma_val_bound();
                    }
                    match self.find_account(address) {
                        Some(i) => {
                            proof {
                                lemma_world_map_index(pre, i as int);
                                lemma_world_map_remove(pre, i as int);
                            }
                            self.accounts.remove(i);
                            proof {
                                lemma_unique_after_replace(pre, i as int, entry);
                                lemma_world_map_push(self.accounts@, entry);
                                assert(world_map(pre).remove(pre[i as int].address@).insert(
                                    entry.address@, entry@)
                                    =~= world_map(pre).insert(entry.address@, entry@));
                            }
                            self.accounts.push(entry);
                            Ok(())
                        },
                        None => {
                            proof {
                                lemma_world_map_absent(pre, address@);
                                lemma_unique_after_push(pre, entry);
                                lemma_world_map_push(pre, entry);
                            }
                            self.accounts.push(entry);
                            Ok(())
                        },
                    }
                }
            },
        }
    }

    /// Apply a whole batch of changes, in order: the commit half of
    /// the execution protocol. `Err` means a change was impossible —
    /// a missing account or an arithmetic violation.
    pub fn transit(&mut self, changes: &Vec<AccountChange>) -> (r: Result<(), Error>)
        requires
            old(self).wf(),
            forall|i: int| 0 <= i < changes@.len() ==> wf_change((#[trigger] changes@[i])@),
        ensures
            final(self).wf(),
            r is Ok <==> apply_changes_m(old(self)@, changes_seq(changes@)) is Some,
            r is Ok ==> Some(final(self)@) == apply_changes_m(old(self)@, changes_seq(changes@)),
            r is Err ==> r->Err_0 == Error::InvalidParams,
    {
        let ghost m0 = self@;
        let ghost cs = changes_seq(changes@);
        let mut k: usize = 0;
        while k < changes.len()
            invariant
                self.wf(),
                m0 == old(self)@,
                cs == changes_seq(changes@),
                forall|i: int| 0 <= i < changes@.len() ==> wf_change((#[trigger] changes@[i])@),
                k <= changes@.len(),
                apply_changes_m(m0, cs.take(k as int)) == Some(self@),
            decreases changes@.len() - k,
        {
            let ghost mk = self@;
            let r = self.apply_change(&changes[k]);
            proof {
                assert(cs.take(k + 1).drop_last() =~= cs.take(k as int));
                assert(cs.take(k + 1).last() == cs[k as int]);
                assert(cs[k as int] == changes@[k as int]@);
            }
            match r {
                Ok(u) => {
                },
                Err(e) => {
                    proof {
                        assert(apply_changes_m(m0, cs.take(k + 1)) is None);
                        lemma_apply_changes_prefix_none(m0, cs, k + 1);
                    }
                    return Err(Error::InvalidParams);
                },
            }
            k = k + 1;
        }
        proof {
            assert(cs.take(cs.len() as int) =~= cs);
        }
        Ok(())
    }
}


/// A transaction that passed validation, ready for execution.
#[derive(Debug)]
pub struct ValidTransaction {
    pub caller: Option<Vec<u8>>,
    pub gas_price: U256,
    pub gas_limit: U256,
    pub action: crate::types::TransactionAction,
    pub value: U256,
    pub input: Vec<u8>,
    pub nonce: U256,
}

/// Gas charged for the input bytes: four per zero byte, sixty-eight
/// per nonzero byte.
pub open spec fn data_gas_sp(input: Seq<u8>) -> nat
    decreases input.len(),
{
    if input.len() == 0 {
        0
    } else {
        data_gas_sp(input.drop_last()) + if input.last() == 0 {
            4nat
        } else {
            68nat
        }
    }
}

/// The gas a transaction costs before a single opcode runs.
pub open spec fn intrinsic_gas_sp(t: crate::types::TransactionV) -> nat {
    21000 + (match t.action {
        crate::types::ActionV::Create => 32000nat,
        crate::types::ActionV::Call(a) => 0nat,
    }) + data_gas_sp(t.input)
}

/// Does the world accept this transaction? `None` means yes; `Some`
/// is the error it is refused with.
pub open spec fn validity_error_sp(
    m: Map<Seq<u8>, AccountM>,
    t: crate::types::TransactionV,
    block_gas_limit: nat,
) -> Option<Error> {
    match crate::crypto::tx_caller_sp(t) {
        None => Some(Error::ECDSAError),
        Some(addr) => {
            let nonce = if m.contains_key(addr) {
                m[addr].nonce
            } else {
                0nat
            };
            let balance = if m.contains_key(addr) {
                m[addr].balance
            } else {
                0nat
            };
            if nonce != t.nonce {
                Some(Error::CallError)
            } else if balance < t.value + t.gas_price * t.gas_limit {
                Some(Error::CallError)
            } else if t.gas_limit < intrinsic_gas_sp(t) {
                Some(Error::CallError)
            } else if t.gas_limit > block_gas_limit {
                Some(Error::CallError)
            } else {
                None
            }
        },
    }
}

/// Gas charged for the input bytes.
fn data_gas(input: &Vec<u8>) -> (r: u64)
    requires
        input@.len() < 0x100000000,
    ensures
        r == data_gas_sp(input@),
        r <= 68 * input@.len(),
{
    let mut g: u64 = 0;
    let mut i: usize = 0;
    while i < input.len()
        invariant
            input@.len() < 0x100000000,
            i <= input@.len(),
            g == data_gas_sp(input@.take(i as int)),
            g <= 68 * i,
        decreases input@.len() - i,
    {
        proof {
            assert(input@.take(i + 1).drop_last() =~= input@.take(i as int));
            assert(input@.take(i + 1).last() == input@[i as int]);
        }
        if input[i] == 0 {
            g = g + 4;
        } else {
            g = g + 68;
        }
        i = i + 1;
    }
    proof {
        assert(input@.take(input@.len() as int) =~= input@);
    }
    g
}

/// Validate a transaction against the current world, as mining and
/// submission do: signature, nonce, funds, intrinsic gas, block gas
/// limit — exactly the refusals of `validity_error_sp`.
pub fn to_valid(world: &WorldState, tx: &crate::types::Transaction, block_gas_limit: &U256)
    -> (r: Result<ValidTransaction, Error>)
    requires
        world.wf(),
        tx.input@.len() < 0x100000000,
    ensures
        r is Ok <==> validity_error_sp(world@, tx@, block_gas_limit.val()) is None,
        r is Err ==> Some(r->Err_0) == validity_error_sp(world@, tx@, block_gas_limit.val()),
        r is Ok ==> ({
            let v = r->Ok_0;
            &&& v.caller is Some
            &&& Some(v.caller->0@) == crate::crypto::tx_caller_sp(tx@)
            &&& v.gas_price.val() == tx@.gas_price
            &&& v.gas_limit.val() == tx@.gas_limit
            &&& v.action@ == tx@.action
            &&& v.value.val() == tx@.value
            &&& v.input@ == tx@.input
            &&& v.nonce.val() == tx@.nonce
        }),
{
    let caller = match tx.caller() {
        Some(c) => c,
        None => {
            return Err(Error::ECDSAError);
        },
    };
    let nonce = world.nonce_of(&caller);
    if !(nonce == tx.nonce) {
        proof {
            if nonce.val() == tx.nonce.val() {
                crate::u256::lemma_u256_val_inj(nonce, tx.nonce);
            }
        }
        return Err(Error::CallError);
    }
    let balance = world.balance_of(&caller);
    let fee = match tx.gas_price.checked_mul(&tx.gas_limit) {
        Some(f) => f,
        None => {
            proof {
                balance.lemma_val_bound();
            }
            return Err(Error::CallError);
        },
    };
    let cost = match tx.value.checked_add(&fee) {
        Some(c) => c,
        None => {
            proof {
                balance.lemma_val_bound();
            }
            return Err(Error::CallError);
        },
    };
    if balance.lt(&cost) {
        return Err(Error::CallError);
    }
    let dg = data_gas(&tx.input);
    let base: u64 = match &tx.action {
        crate::types::TransactionAction::Create => 53000,
        crate::types::TransactionAction::Call(a) => 21000,
    };
    let intrinsic = U256::from_u64(base + dg);
    if tx.gas_limit.lt(&intrinsic) {
        return Err(Error::CallError);
    }
    if block_gas_limit.lt(&tx.gas_limit) {
        return Err(Error::CallError);
    }
    let action = match &tx.action {
        crate::types::TransactionAction::Call(a) => crate::types::TransactionAction::Call(
            clone_bytes(a),
        ),
        crate::types::TransactionAction::Create => crate::types::TransactionAction::Create,
    };
    Ok(ValidTransaction {
        caller: Some(caller),
        gas_price: tx.gas_price,
        gas_limit: tx.gas_limit,
        action,
        value: tx.value,
        input: clone_bytes(&tx.input),
        nonce: tx.nonce,
    })
}


impl AccountEntry {
    /// A copy equal to the original.
    pub fn duplicate(&self) -> (r: AccountEntry)
        ensures
            r@ == self@,
            r.address@ == self.address@,
            r.nonce == self.nonce,
            r.balance == self.balance,
            r.code@ == self.code@,
            r.storage@ == self.storage@,
            wf_account_entry(*self) ==> wf_account_entry(r),
    {
        let mut st: Vec<StorageEntry> = Vec::new();
        let mut i: usize = 0;
        while i < self.storage.len()
            invariant
                i <= self.storage@.len(),
                st@.len() == i,
                forall|j: int| 0 <= j < i ==> #[trigger] st@[j] == self.storage@[j],
            decreases self.storage@.len() - i,
        {
            let e = StorageEntry { key: self.storage[i].key, value: self.storage[i].value };
            st.push(e);
            i = i + 1;
        }
        proof {
            assert(st@ =~= self.storage@);
        }
        AccountEntry {
            address: clone_bytes(&self.address),
            nonce: self.nonce,
            balance: self.balance,
            code: clone_bytes(&self.code),
            storage: st,
        }
    }
}

impl WorldState {
    /// A copy equal to the original.
    pub fn duplicate(&self) -> (r: WorldState)
        requires
            self.wf(),
        ensures
            r@ == self@,
            r.wf(),
            state_trie_map_sp(r.accounts@) == state_trie_map_sp(self.accounts@),
    {
        let mut accounts: Vec<AccountEntry> = Vec::new();
        let mut i: usize = 0;
        while i < self.accounts.len()
            invariant
                self.wf(),
                i <= self.accounts@.len(),
                accounts@.len() == i,
                forall|j: int| 0 <= j < i ==> (#[trigger] accounts@[j])@ == self.accounts@[j]@
                    && accounts@[j].address@ == self.accounts@[j].address@
                    && accounts@[j].nonce == self.accounts@[j].nonce
                    && accounts@[j].balance == self.accounts@[j].balance
                    && accounts@[j].code@ == self.accounts@[j].code@
                    && accounts@[j].storage@ == self.accounts@[j].storage@
                    && wf_account_entry(accounts@[j]),
            decreases self.accounts@.len() - i,
        {
            proof {
                assert(wf_account_entry(self.accounts@[i as int]));
            }
            let one = self.accounts[i].duplicate();
            accounts.push(one);
            i = i + 1;
        }
        let r = WorldState { accounts };
        proof {
            lemma_world_map_congruent(r.accounts@, self.accounts@);
            lemma_state_trie_map_congruent(r.accounts@, self.accounts@);
        }
        r
    }
}

/// Worlds whose entries agree field by field commit to one state root.
proof fn lemma_state_trie_map_congruent(a: Seq<AccountEntry>, b: Seq<AccountEntry>)
    requires
        a.len() == b.len(),
        forall|i: int| 0 <= i < a.len() ==> (#[trigger] a[i]).address@ == b[i].address@
            && a[i].nonce == b[i].nonce && a[i].balance == b[i].balance
            && a[i].code@ == b[i].code@ && a[i].storage@ == b[i].storage@,
    ensures
        state_trie_map_sp(a) == state_trie_map_sp(b),
    decreases a.len(),
{
    if a.len() > 0 {
        lemma_state_trie_map_congruent(a.drop_last(), b.drop_last());
        assert(account_rlp_sp(a.last()) == account_rlp_sp(b.last()));
        assert(state_trie_map_sp(a) =~= state_trie_map_sp(b));
    }
}

/// Worlds whose entries agree pointwise stand for one map.
proof fn lemma_world_map_congruent(a: Seq<AccountEntry>, b: Seq<AccountEntry>)
    requires
        a.len() == b.len(),
        forall|i: int| 0 <= i < a.len() ==> (#[trigger] a[i])@ == b[i]@
            && a[i].address@ == b[i].address@,
    ensures
        world_map(a) == world_map(b),
    decreases a.len(),
{
    if a.len() > 0 {
        lemma_world_map_congruent(a.drop_last(), b.drop_last());
        assert(world_map(a) =~= world_map(b));
    }
}


/// What a paused execution asks for: an account, its code, one of
/// its storage slots, or an ancestor block hash.
#[derive(Debug)]
pub enum Require {
    Account(Vec<u8>),
    AccountCode(Vec<u8>),
    AccountStorage(Vec<u8>, U256),
    Blockhash(u64),
}

/// What the world answers with.
#[derive(Debug)]
pub enum Commitment {
    Full { address: Vec<u8>, nonce: U256, balance: U256, code: Vec<u8> },
    Nonexist(Vec<u8>),
    Code { address: Vec<u8>, code: Vec<u8> },
    Storage { address: Vec<u8>, index: U256, value: U256 },
    Blockhash { number: u64, hash: Vec<u8> },
}

/// Answer one query of a paused execution against the world and the
/// last block hashes, newest first: a present account is committed
/// whole, an absent one as nonexistent; storage of anything absent
/// is zero; a block hash outside the last 256 is zero.
pub fn respond_to_require(
    world: &WorldState,
    req: &Require,
    block_number: u64,
    last_hashes: &Vec<Vec<u8>>,
) -> (r: Commitment)
    requires
        world.wf(),
        forall|i: int| 0 <= i < last_hashes@.len()
            ==> (#[trigger] last_hashes@[i])@.len() == 32,
    ensures
        match req {
            Require::Account(a) => if world@.contains_key(a@) {
                r matches Commitment::Full { address, nonce, balance, code }
                    && address@ == a@ && nonce.val() == world@[a@].nonce
                    && balance.val() == world@[a@].balance && code@ == world@[a@].code
            } else {
                (r matches Commitment::Nonexist(x) && x@ == a@)
            },
            Require::AccountCode(a) => if world@.contains_key(a@) {
                r matches Commitment::Code { address, code } && address@ == a@
                    && code@ == world@[a@].code
            } else {
                (r matches Commitment::Nonexist(x) && x@ == a@)
            },
            Require::AccountStorage(a, key) => r matches Commitment::Storage {
                address,
                index,
                value,
            } && address@ == a@ && index == *key && value.val() == (
            if world@.contains_key(a@) && world@[a@].storage.contains_key(key.val()) {
                world@[a@].storage[key.val()]
            } else {
                0nat
            }),
            Require::Blockhash(n) => r matches Commitment::Blockhash { number, hash }
                && number == *n && hash@ == (
            if *n < block_number && block_number - *n <= last_hashes@.len() {
                last_hashes@[block_number - *n - 1]@
            } else {
                Seq::new(32, |i: int| 0u8)
            }),
        },
{
    match req {
        Require::Account(a) => {
            if world.has_account(a) {
                Commitment::Full {
                    address: clone_bytes(a),
                    nonce: world.nonce_of(a),
                    balance: world.balance_of(a),
                    code: world.code_of(a),
                }
            } else {
                Commitment::Nonexist(clone_bytes(a))
            }
        },
        Require::AccountCode(a) => {
            if world.has_account(a) {
                Commitment::Code { address: clone_bytes(a), code: world.code_of(a) }
            } else {
                Commitment::Nonexist(clone_bytes(a))
            }
        },
        Require::AccountStorage(a, key) => Commitment::Storage {
            address: clone_bytes(a),
            index: *key,
            value: world.storage_of(a, key),
        },
        Require::Blockhash(n) => {
            let n = *n;
            if n < block_number && block_number - n <= last_hashes.len() as u64 {
                let idx = (block_number - n - 1) as usize;
                Commitment::Blockhash {
                    number: n,
                    hash: clone_bytes(&last_hashes[idx]),
                }
            } else {
                let mut zero: Vec<u8> = Vec::new();
                let mut i: usize = 0;
                while i < 32
                    invariant
                        i <= 32,
                        zero@.len() == i,
                        forall|j: int| 0 <= j < i ==> zero@[j] == 0u8,
                    decreases 32 - i,
                {
                    zero.push(0);
                    i = i + 1;
                }
                proof {
                    assert(zero@ =~= Seq::new(32, |j: int| 0u8));
                }
                Commitment::Blockhash { number: n, hash: zero }
            }
        },
    }
}


/// The slot-keyed map whose root is an account's storage root: keys
/// are hashed 32-byte slots, values the slot values' digits.
pub open spec fn storage_trie_map_sp(st: Seq<StorageEntry>) -> Map<Seq<u8>, Seq<u8>>
    decreases st.len(),
{
    if st.len() == 0 {
        Map::empty()
    } else {
        storage_trie_map_sp(st.drop_last()).insert(
            crate::crypto::keccak_of(crate::crypto::be32_of(st.last().key.val())),
            crate::rlp::enc_bytes(crate::rlp::nat_min_be(st.last().value.val())),
        )
    }
}

/// One account's leaf in the state trie.
pub open spec fn account_rlp_sp(a: AccountEntry) -> Seq<u8> {
    crate::rlp::enc_list(crate::types::enc_nat(a.nonce.val()) + (crate::types::enc_nat(a.balance.val()) + (crate::rlp::enc_bytes(crate::trie::trie_root_of(
        storage_trie_map_sp(a.storage@))) + crate::rlp::enc_bytes(crate::crypto::keccak_of(a.code@)))))
}

/// The address-keyed map whose root is the world's state root.
pub open spec fn state_trie_map_sp(s: Seq<AccountEntry>) -> Map<Seq<u8>, Seq<u8>>
    decreases s.len(),
{
    if s.len() == 0 {
        Map::empty()
    } else {
        state_trie_map_sp(s.drop_last()).insert(
            crate::crypto::keccak_of(s.last().address@),
            account_rlp_sp(s.last()),
        )
    }
}


} // verus!
