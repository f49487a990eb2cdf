//! End-to-end behavior of the node's core: genesis balances, empty
//! mining, a value transfer, filters, and the read surface.

use svmdev::chain::MinerState;
use svmdev::filter::{FilterChanges, FilterKind, FilterManager, LogFilter, LogHit, TopicFilter, get_logs, log_matches};
use svmdev::miner::{build_receipt, make_state, mine_one_with, state_root};
use svmdev::rpc;
use svmdev::state::{AccountChange, ValidTransaction, to_valid};
use svmdev::types::{Log, Transaction, TransactionAction};
use svmdev::u256::U256;

fn u(x: u64) -> U256 {
    U256::from_u64(x)
}

fn secret(tail: u8) -> Vec<u8> {
    let mut s = vec![0u8; 32];
    s[31] = tail;
    s
}

fn genesis_with(balance: U256, keys: &[u8]) -> MinerState {
    let accounts: Vec<(Vec<u8>, U256)> =
        keys.iter().map(|k| (secret(*k), balance)).collect();
    make_state(accounts, 1_700_000_000).unwrap()
}

#[test]
fn genesis_lists_accounts_with_their_balance() {
    let st = genesis_with(u(0x10), &[1, 2]);
    assert_eq!(st.accounts().len(), 2);
    assert_eq!(st.block_height(), 0);
    for key in st.accounts() {
        let address = svmdev::crypto::address_of_secret(&key).unwrap();
        let bal = rpc::balance(&st, &address, 0);
        assert_eq!(bal, u(0x10));
    }
    let untouched = vec![0x42u8; 20];
    assert_eq!(rpc::balance(&st, &untouched, 0), u(0));
}

#[test]
fn empty_mining_grows_the_chain() {
    let mut st = genesis_with(u(0x10), &[1]);
    let h1 = mine_one_with(
        &mut st,
        Vec::new(),
        Vec::new(),
        Vec::new(),
        vec![0u8; 20],
        u(10_000_000),
        1_700_000_010,
    )
    .unwrap();
    assert_eq!(h1.len(), 32);
    assert_eq!(st.block_height(), 1);
    let b = st.get_block_by_number(1);
    assert!(b.transactions.is_empty());
    assert_eq!(b.header.gas_used, u(0));
    assert_eq!(b.header.number, 1);
    let parent = st.get_block_by_number(0);
    assert_eq!(b.header.parent_hash, parent.header.hash());
    // The indexed block is found again under its own hash.
    let by_hash = st.get_block_by_hash(&b.header.hash()).unwrap();
    assert_eq!(by_hash.header.number, 1);
}

#[test]
fn value_transfer_moves_balance_and_bumps_nonce() {
    let balance = u(0x10000);
    let mut st = genesis_with(balance, &[1]);
    let key = secret(1);
    let from = svmdev::crypto::address_of_secret(&key).unwrap();
    let to = vec![0x22u8; 20];

    let tx = rpc::to_signed_transaction(
        &st,
        &from,
        Some(to.clone()),
        Some(u(0x5208)),
        Some(u(0)),
        Some(u(5)),
        Vec::new(),
        None,
    )
    .unwrap();
    assert_eq!(tx.caller().unwrap(), from);

    let valid: ValidTransaction = to_valid(st.stateful(), &tx, &u(10_000_000)).unwrap();
    assert_eq!(valid.caller.as_ref().unwrap(), &from);

    let hash = st.append_pending_transaction(tx);
    let drained = st.clear_pending_transactions();
    assert_eq!(drained.len(), 1);

    // The effects of executing a plain transfer.
    let changes = vec![
        AccountChange::Full {
            address: from.clone(),
            nonce: u(1),
            balance: u(0x10000 - 5),
            changing_storage: Vec::new(),
            code: Vec::new(),
        },
        AccountChange::IncreaseBalance { address: to.clone(), amount: u(5) },
    ];
    st.stateful_mut().transit(&changes).unwrap();
    let root = state_root(st.stateful());
    let receipt = build_receipt(u(21000), Vec::new(), root);

    mine_one_with(
        &mut st,
        drained,
        vec![receipt],
        vec![true],
        vec![0u8; 20],
        u(10_000_000),
        1_700_000_010,
    )
    .unwrap();

    assert_eq!(rpc::balance(&st, &to, 1), u(5));
    assert_eq!(rpc::balance(&st, &from, 1), u(0x10000 - 5));
    assert_eq!(rpc::transaction_count(&st, &from, 1), u(1));
    let rc = st.get_receipt_by_transaction_hash(&hash).unwrap();
    assert_eq!(rc.used_gas, u(21000));
    let bh = st.get_transaction_block_hash_by_hash(&hash).unwrap();
    assert_eq!(bh, st.get_block_by_number(1).header.hash());
    let found = st.get_transaction_by_hash(&hash).unwrap();
    assert_eq!(found.hash(), hash);
}

#[test]
fn validation_refuses_what_the_world_cannot_pay() {
    let mut st = genesis_with(u(30000), &[1]);
    let key = secret(1);
    let from = svmdev::crypto::address_of_secret(&key).unwrap();
    // More value than the account holds.
    let tx = rpc::to_signed_transaction(
        &st,
        &from,
        Some(vec![0x22u8; 20]),
        Some(u(21000)),
        Some(u(1)),
        Some(u(1_000_000)),
        Vec::new(),
        None,
    )
    .unwrap();
    assert!(to_valid(st.stateful(), &tx, &u(10_000_000)).is_err());
    // A wrong nonce.
    let tx = rpc::to_signed_transaction(
        &st,
        &from,
        Some(vec![0x22u8; 20]),
        Some(u(21000)),
        Some(u(0)),
        Some(u(1)),
        Vec::new(),
        Some(u(7)),
    )
    .unwrap();
    assert!(to_valid(st.stateful(), &tx, &u(10_000_000)).is_err());
    // Too little gas for the intrinsic cost.
    let tx = rpc::to_signed_transaction(
        &st,
        &from,
        Some(vec![0x22u8; 20]),
        Some(u(20000)),
        Some(u(0)),
        Some(u(1)),
        Vec::new(),
        None,
    )
    .unwrap();
    assert!(to_valid(st.stateful(), &tx, &u(10_000_000)).is_err());
    let _ = &mut st;
}

#[test]
fn block_filter_reports_each_block_once() {
    let mut st = genesis_with(u(0x10), &[1]);
    let mut fm = FilterManager::new();
    let id = fm.install(FilterKind::Block(st.block_height())).unwrap();

    for ts in [10u64, 20u64] {
        mine_one_with(
            &mut st,
            Vec::new(),
            Vec::new(),
            Vec::new(),
            vec![0u8; 20],
            u(10_000_000),
            1_700_000_000 + ts,
        )
        .unwrap();
    }

    match fm.get_changes(id, &st).unwrap() {
        FilterChanges::Hashes(hs) => {
            assert_eq!(hs.len(), 2);
            assert_eq!(hs[0], st.get_block_by_number(1).header.hash());
            assert_eq!(hs[1], st.get_block_by_number(2).header.hash());
        }
        FilterChanges::Logs(_) => panic!("expected hashes"),
    }
    // An immediate second poll returns nothing.
    match fm.get_changes(id, &st).unwrap() {
        FilterChanges::Hashes(hs) => assert!(hs.is_empty()),
        FilterChanges::Logs(_) => panic!("expected hashes"),
    }
    assert!(fm.uninstall(id));
    assert!(!fm.uninstall(id));
}

#[test]
fn logs_are_found_by_address_and_topics() {
    let balance = u(0x10000);
    let mut st = genesis_with(balance, &[1]);
    let key = secret(1);
    let from = svmdev::crypto::address_of_secret(&key).unwrap();
    let emitter = vec![0x33u8; 20];
    let topic = vec![0x44u8; 32];

    let tx = rpc::to_signed_transaction(
        &st,
        &from,
        Some(emitter.clone()),
        Some(u(0x5208)),
        Some(u(0)),
        Some(u(0)),
        Vec::new(),
        None,
    )
    .unwrap();
    let hash = st.append_pending_transaction(tx);
    let drained = st.clear_pending_transactions();

    let log = Log {
        address: emitter.clone(),
        topics: vec![topic.clone()],
        data: vec![9, 9],
    };
    let root = state_root(st.stateful());
    let receipt = build_receipt(u(21000), vec![log], root);
    mine_one_with(
        &mut st,
        drained,
        vec![receipt],
        vec![true],
        vec![0u8; 20],
        u(10_000_000),
        1_700_000_010,
    )
    .unwrap();

    let filter = LogFilter {
        from_block: 0,
        to_block: 1,
        address: Some(emitter.clone()),
        topics: vec![TopicFilter::Or(vec![topic.clone()])],
    };
    let hits: Vec<LogHit> = get_logs(&st, &filter).unwrap();
    assert_eq!(hits.len(), 1);
    assert_eq!(hits[0].block_number, 1);
    assert_eq!(hits[0].transaction_hash, hash);
    assert_eq!(hits[0].log.data, vec![9, 9]);

    // A different topic matches nothing.
    let filter = LogFilter {
        from_block: 0,
        to_block: 1,
        address: None,
        topics: vec![TopicFilter::Or(vec![vec![0x55u8; 32]])],
    };
    assert!(get_logs(&st, &filter).unwrap().is_empty());
    assert!(!log_matches(
        &filter,
        &Log { address: emitter, topics: vec![topic], data: Vec::new() }
    ));
}

#[test]
fn block_parameter_resolution() {
    let st = genesis_with(u(0x10), &[1]);
    assert_eq!(rpc::from_block_number(&st, None).unwrap(), 0);
    assert_eq!(rpc::from_block_number(&st, Some(&b"latest".to_vec())).unwrap(), 0);
    assert_eq!(rpc::from_block_number(&st, Some(&b"pending".to_vec())).unwrap(), 0);
    assert_eq!(rpc::from_block_number(&st, Some(&b"earliest".to_vec())).unwrap(), 0);
    assert_eq!(rpc::from_block_number(&st, Some(&b"0x0".to_vec())).unwrap(), 0);
    assert!(rpc::from_block_number(&st, Some(&b"0x1".to_vec())).is_err());
    assert!(rpc::from_block_number(&st, Some(&b"0xqq".to_vec())).is_err());
    // A bare number without the 0x prefix is not wire-valid.
    assert!(rpc::from_block_number(&st, Some(&b"0".to_vec())).is_err());
}

#[test]
fn log_filter_polls_once_and_receipt_is_assembled() {
    let balance = u(0x10000);
    let mut st = genesis_with(balance, &[1]);
    let key = secret(1);
    let from = svmdev::crypto::address_of_secret(&key).unwrap();
    let emitter = vec![0x33u8; 20];
    let topic = vec![0x44u8; 32];

    let mut fm = FilterManager::new();
    let fid = fm
        .install(FilterKind::Log(
            LogFilter {
                from_block: 0,
                to_block: 10,
                address: Some(emitter.clone()),
                topics: vec![TopicFilter::Or(vec![topic.clone()])],
            },
            0,
        ))
        .unwrap();

    let tx = rpc::to_signed_transaction(
        &st,
        &from,
        Some(emitter.clone()),
        Some(u(0x5208)),
        Some(u(0)),
        Some(u(0)),
        Vec::new(),
        None,
    )
    .unwrap();
    let hash = st.append_pending_transaction(tx);
    let drained = st.clear_pending_transactions();
    let log = Log { address: emitter.clone(), topics: vec![topic], data: vec![7] };
    let root = svmdev::miner::state_root(st.stateful());
    let receipt = build_receipt(u(21000), vec![log], root);
    mine_one_with(
        &mut st,
        drained,
        vec![receipt],
        vec![true],
        vec![0u8; 20],
        u(10_000_000),
        1_700_000_010,
    )
    .unwrap();

    match fm.get_changes(fid, &st).unwrap() {
        FilterChanges::Logs(hits) => {
            assert_eq!(hits.len(), 1);
            assert_eq!(hits[0].transaction_hash, hash);
        }
        FilterChanges::Hashes(_) => panic!("expected logs"),
    }
    match fm.get_changes(fid, &st).unwrap() {
        FilterChanges::Logs(hits) => assert!(hits.is_empty()),
        FilterChanges::Hashes(_) => panic!("expected logs"),
    }

    // The wire receipt is assembled whole.
    let rc = rpc::to_rpc_receipt(&st, &hash).unwrap();
    assert_eq!(rc.gas_used, b"0x5208".to_vec());
    assert_eq!(rc.cumulative_gas_used, b"0x5208".to_vec());
    assert_eq!(rc.transaction_index, b"0x0".to_vec());
    assert!(rc.contract_address.is_none());
    assert_eq!(rc.logs.len(), 1);
    assert_eq!(rc.logs[0].data, b"0x07".to_vec());
}

#[test]
fn wire_hex_formatting() {
    assert_eq!(rpc::u256_to_hex(&u(0)), b"0x0".to_vec());
    assert_eq!(rpc::u256_to_hex(&u(5)), b"0x5".to_vec());
    assert_eq!(rpc::u256_to_hex(&u(0x5208)), b"0x5208".to_vec());
    assert_eq!(rpc::u64_to_hex(16), b"0x10".to_vec());
    assert_eq!(rpc::bytes_to_hex(&vec![0x00, 0xff]), b"0x00ff".to_vec());
}

#[test]
fn storage_and_code_reads_default_to_empty() {
    let mut st = genesis_with(u(0x10), &[1]);
    let contract = vec![0x77u8; 20];
    assert_eq!(rpc::code(&st, &contract, 0), Vec::<u8>::new());
    assert_eq!(rpc::storage_at(&st, &contract, &u(0), 0), u(0));

    // Install a contract account and read its slot back.
    let changes = vec![AccountChange::Create {
        address: contract.clone(),
        nonce: u(0),
        balance: u(0),
        storage: vec![svmdev::state::StorageDelta { key: u(0), value: u(0x2a) }],
        code: vec![0x60, 0x2a],
        exists: true,
    }];
    st.stateful_mut().transit(&changes).unwrap();
    let root = state_root(st.stateful());
    let receipt = build_receipt(u(0), Vec::new(), root);
    mine_one_with(
        &mut st,
        Vec::new(),
        Vec::new(),
        Vec::new(),
        vec![0u8; 20],
        u(10_000_000),
        1_700_000_010,
    )
    .unwrap();
    let _ = receipt;
    assert_eq!(rpc::storage_at(&st, &contract, &u(0), 1), u(0x2a));
    assert_eq!(rpc::code(&st, &contract, 1), vec![0x60, 0x2a]);
    // The historical view at genesis still reads empty.
    assert_eq!(rpc::code(&st, &contract, 0), Vec::<u8>::new());
}
