use bundle_state::bundle::{AccountInit, AccountRevertInit, BundleState};
use bundle_state::change::StateChange;
use bundle_state::journal::{merge_wiped, StateReverts};
use bundle_state::state::{AccountInfoRevert, AccountRevert, BundleAccount, StorageSlot};
use bundle_state::store::{PlainSlot, Store};
use bundle_state::types::{Account, AccountStatus, Address, Bytecode, Log, Receipt, StorageEntry, U256};

fn w(v: u128) -> U256 {
    U256::from_u128(v)
}

fn addr(v: u128) -> Address {
    Address::from_u128(v)
}

fn acc(nonce: u64) -> Account {
    Account { nonce, balance: w(1000 + nonce as u128), code_hash: w(0) }
}

fn entry(k: u128, v: u128) -> StorageEntry {
    StorageEntry { key: w(k), value: w(v) }
}

fn receipt(gas: u64, logs: usize) -> Receipt {
    let mut l = Vec::new();
    for i in 0..logs {
        l.push(Log { address: addr(i as u128), topics: vec![w(i as u128)], data: vec![i as u8] });
    }
    Receipt { success: true, cumulative_gas_used: gas, logs: l }
}

fn empty_bundle(first_block: u64, blocks: usize) -> BundleState {
    let mut receipts = Vec::new();
    let mut reverts = Vec::new();
    for _ in 0..blocks {
        receipts.push(Vec::new());
        reverts.push(Vec::new());
    }
    BundleState::new_init(Vec::new(), reverts, Vec::new(), receipts, first_block)
}

/// Three blocks 10..13 over one account and one slot: the account goes
/// nonce 0 -> 1 -> 2 -> 3, the slot 5 -> 6 -> 7 -> 8.
fn three_blocks() -> BundleState {
    let a = addr(1);
    let state = vec![AccountInit {
        address: a,
        original: Some(acc(0)),
        present: Some(acc(3)),
        storage: vec![(w(9), w(5), w(8))],
    }];
    let mut reverts = Vec::new();
    for b in 0..3u64 {
        reverts.push(vec![AccountRevertInit {
            address: a,
            account: Some(Some(acc(b))),
            storage: vec![entry(9, 5 + b as u128)],
        }]);
    }
    let receipts = vec![vec![receipt(1, 1)], vec![receipt(2, 2)], vec![receipt(3, 0), receipt(4, 1)]];
    BundleState::new_init(state, reverts, Vec::new(), receipts, 10)
}

#[test]
fn index_of_range() {
    let b = empty_bundle(100, 3);
    assert_eq!(b.index_of(100), Some(0));
    assert_eq!(b.index_of(102), Some(2));
    assert_eq!(b.index_of(99), None);
    assert_eq!(b.index_of(103), None);
    assert_eq!(b.first_block(), 100);
    assert_eq!(b.last_block(), 103);
    assert_eq!(b.len(), 3);
}

#[test]
fn logs_out_of_range_and_empty_block() {
    let b = empty_bundle(100, 3);
    assert!(b.logs(99).is_none());
    assert!(b.logs(103).is_none());
    assert_eq!(b.logs(101).unwrap().len(), 0);
    let t = three_blocks();
    assert_eq!(t.logs(11).unwrap().len(), 2);
    assert_eq!(t.logs(12).unwrap().len(), 1);
    assert_eq!(t.receipts_by_block(12).len(), 2);
    assert_eq!(t.receipts_by_block(13).len(), 0);
}

#[test]
fn accessors_read_present_values() {
    let t = three_blocks();
    assert_eq!(t.account(&addr(1)), Some(Some(acc(3))));
    assert_eq!(t.account(&addr(2)), None);
    assert_eq!(t.storage(&addr(1), w(9)), Some(w(8)));
    assert_eq!(t.storage(&addr(1), w(10)), None);
    assert_eq!(t.accounts_iter(), vec![(addr(1), Some(acc(3)))]);
    assert_eq!(t.state().len(), 1);
    assert!(t.bytecode(&w(77)).is_none());
}

#[test]
fn bytecode_lookup() {
    let b = BundleState::new_init(Vec::new(), Vec::new(), vec![(w(77), Bytecode(vec![1, 2, 3]))], Vec::new(), 0);
    assert_eq!(b.bytecode(&w(77)).unwrap().0, vec![1, 2, 3]);
}

#[test]
fn revert_to_undoes_later_blocks() {
    let mut t = three_blocks();
    t.revert_to(10);
    assert_eq!(t.len(), 1);
    assert_eq!(t.account(&addr(1)), Some(Some(acc(1))));
    assert_eq!(t.storage(&addr(1), w(9)), Some(w(6)));
    assert_eq!(t.receipts().len(), 1);
}

#[test]
fn revert_to_before_range_changes_nothing() {
    let mut t = three_blocks();
    t.revert_to(9);
    assert_eq!(t.len(), 3);
    assert_eq!(t.account(&addr(1)), Some(Some(acc(3))));
}

#[test]
fn detach_past_end_is_none() {
    let mut t = three_blocks();
    assert!(t.detach_lower_part_at(13).is_none());
    assert_eq!(t.len(), 3);
    assert_eq!(t.first_block(), 10);
}

#[test]
fn detach_before_range_is_empty_fragment() {
    let mut t = three_blocks();
    let d = t.detach_lower_part_at(9).unwrap();
    assert_eq!(d.len(), 0);
    assert_eq!(d.accounts_iter().len(), 0);
    assert_eq!(t.len(), 3);
    assert_eq!(t.first_block(), 10);
    assert_eq!(t.account(&addr(1)), Some(Some(acc(3))));
}

#[test]
fn detach_splits_range() {
    let mut t = three_blocks();
    let d = t.detach_lower_part_at(11).unwrap();
    assert_eq!(d.first_block(), 10);
    assert_eq!(d.len(), 2);
    assert_eq!(d.last_block(), 12);
    assert_eq!(d.account(&addr(1)), Some(Some(acc(2))));
    assert_eq!(d.storage(&addr(1), w(9)), Some(w(7)));
    assert_eq!(t.first_block(), 12);
    assert_eq!(t.len(), 1);
    assert_eq!(t.last_block(), 13);
    assert_eq!(t.account(&addr(1)), Some(Some(acc(3))));
    assert_eq!(t.receipts_by_block(12).len(), 2);
}

#[test]
fn revert_then_extend_restores_present_values() {
    let mut t = three_blocks();
    t.revert_to(10);
    let removed = BundleState::new(
        vec![BundleAccount {
            address: addr(1),
            original_info: Some(acc(1)),
            info: Some(acc(3)),
            status: AccountStatus::Changed,
        }],
        vec![StorageSlot { address: addr(1), key: w(9), original_value: w(6), present_value: w(8) }],
        Vec::new(),
        vec![Vec::new(), Vec::new()],
        vec![vec![receipt(2, 2)], vec![receipt(3, 0), receipt(4, 1)]],
        11,
    );
    t.extend(removed);
    let orig = three_blocks();
    assert_eq!(t.account(&addr(1)), orig.account(&addr(1)));
    assert_eq!(t.storage(&addr(1), w(9)), orig.storage(&addr(1), w(9)));
    assert_eq!(t.len(), 3);
    let gas: Vec<u64> = t.receipts().iter().flatten().map(|r| r.cumulative_gas_used).collect();
    assert_eq!(gas, vec![1, 2, 3, 4]);
}

#[test]
fn extend_zeroes_slots_of_destroyed_accounts() {
    let mut t = three_blocks();
    let later = BundleState::new(
        vec![BundleAccount { address: addr(1), original_info: Some(acc(3)), info: None, status: AccountStatus::Destroyed }],
        Vec::new(),
        Vec::new(),
        vec![Vec::new()],
        vec![Vec::new()],
        13,
    );
    t.extend(later);
    assert_eq!(t.account(&addr(1)), Some(None));
    assert_eq!(t.storage(&addr(1), w(9)), Some(w(0)));
    assert_eq!(t.len(), 4);
}

#[test]
fn merge_prefers_revert_values() {
    let wiped = vec![entry(1, 10), entry(3, 30), entry(5, 50)];
    let reverts = vec![entry(2, 200), entry(3, 300), entry(6, 600)];
    let out = merge_wiped(&wiped, &reverts);
    assert_eq!(out, vec![entry(1, 10), entry(2, 200), entry(3, 300), entry(5, 50), entry(6, 600)]);
    assert_eq!(merge_wiped(&Vec::new(), &reverts), reverts);
    assert_eq!(merge_wiped(&wiped, &Vec::new()), wiped);
}

#[test]
fn zero_write_leaves_no_entry() {
    let mut store = Store::new();
    store.set_slot(addr(1), w(4), w(44));
    store.set_slot(addr(1), w(2), w(22));
    assert_eq!(store.plain_storage.len(), 2);
    assert_eq!(store.plain_storage[0].key, w(2));
    let change = StateChange {
        accounts: Vec::new(),
        storage: vec![PlainSlot { address: addr(1), key: w(4), value: w(0) }],
        contracts: Vec::new(),
    };
    change.write_to_db(&mut store);
    assert_eq!(store.plain_storage, vec![PlainSlot { address: addr(1), key: w(2), value: w(22) }]);
}

#[test]
fn account_writes_upsert_and_delete() {
    let mut store = Store::new();
    let change = StateChange {
        accounts: vec![(addr(1), Some(acc(1))), (addr(2), Some(acc(2))), (addr(1), None)],
        storage: Vec::new(),
        contracts: vec![(w(5), Bytecode(vec![9]))],
    };
    change.write_to_db(&mut store);
    assert_eq!(store.plain_accounts, vec![(addr(2), acc(2))]);
    assert_eq!(store.bytecodes.len(), 1);
    store.set_account(addr(3), None);
    assert_eq!(store.plain_accounts.len(), 1);
}

#[test]
fn wiping_revert_merges_persisted_storage() {
    let mut store = Store::new();
    store.set_slot(addr(1), w(1), w(10));
    store.set_slot(addr(1), w(3), w(30));
    store.set_slot(addr(2), w(1), w(99));
    let reverts = StateReverts::from(vec![vec![AccountRevert {
        address: addr(1),
        account: AccountInfoRevert::DeleteIt,
        storage: vec![entry(3, 300), entry(4, 400)],
        wipe_storage: true,
        previous_status: AccountStatus::Changed,
    }]]);
    reverts.write_to_db(&mut store, 7);
    assert_eq!(store.plain_storage, vec![PlainSlot { address: addr(2), key: w(1), value: w(99) }]);
    let rows: Vec<(u64, StorageEntry)> = store.storage_changesets.iter().map(|r| (r.block, r.entry)).collect();
    assert_eq!(rows, vec![(7, entry(1, 10)), (7, entry(3, 300)), (7, entry(4, 400))]);
    assert_eq!(store.account_changesets.len(), 1);
    assert_eq!(store.account_changesets[0].info, None);
}

#[test]
fn flush_round_trip_restores_pre_range_state() {
    let mut store = Store::new();
    store.set_account(addr(1), Some(acc(0)));
    store.set_slot(addr(1), w(9), w(5));
    let t = three_blocks();
    t.write_to_db(&mut store, false);
    assert_eq!(store.plain_accounts, vec![(addr(1), acc(3))]);
    assert_eq!(store.plain_storage, vec![PlainSlot { address: addr(1), key: w(9), value: w(8) }]);
    assert_eq!(store.receipts.len(), 4);
    // Replay the change-sets from the newest block down to the first.
    let mut account = Some(acc(3));
    let mut slot = w(8);
    for block in (10..13u64).rev() {
        for row in store.account_changesets.iter().filter(|r| r.block == block) {
            account = row.info;
        }
        for row in store.storage_changesets.iter().filter(|r| r.block == block) {
            slot = row.entry.value;
        }
    }
    assert_eq!(account, Some(acc(0)));
    assert_eq!(slot, w(5));
}

#[test]
fn flush_appends_receipts_after_existing_ones() {
    let mut store = Store::new();
    store.append_receipt(receipt(100, 0));
    let t = three_blocks();
    t.write_to_db(&mut store, true);
    let gas: Vec<u64> = store.receipts.iter().map(|r| r.cumulative_gas_used).collect();
    assert_eq!(gas, vec![100, 1, 2, 3, 4]);
}

#[test]
fn hashed_projection_uses_keccak_of_keys() {
    let state = vec![AccountInit {
        address: addr(0),
        original: None,
        present: Some(acc(1)),
        storage: vec![(w(0), w(0), w(0))],
    }];
    let b = BundleState::new_init(state, vec![Vec::new()], Vec::new(), vec![Vec::new()], 1);
    let h = b.hash_state_slow();
    assert_eq!(h.accounts.len(), 1);
    assert_eq!(
        h.accounts[0].hashed_address,
        U256 { hi: 0x5380c7b7ae81a58eb98d9c78de4a1fd7, lo: 0xfd9535fc953ed2be602daaa41767312a }
    );
    assert_eq!(h.accounts[0].info, Some(acc(1)));
    assert!(!h.accounts[0].wiped);
    assert_eq!(h.storage.len(), 1);
    assert_eq!(
        h.storage[0].hashed_key,
        U256 { hi: 0x290decd9548b62a8d60345a988386fc8, lo: 0x4ba6bc95484008f6362f93160ef3e563 }
    );
    assert_eq!(h.storage[0].value, w(0));
}

#[test]
fn hashed_projection_is_sorted_and_marks_wipes() {
    let mut state = Vec::new();
    for i in 0..5u128 {
        state.push(AccountInit { address: addr(i), original: None, present: None, storage: vec![(w(i), w(0), w(i))] });
    }
    let mut b = BundleState::new_init(state, vec![Vec::new()], Vec::new(), vec![Vec::new()], 1);
    b.accounts[2].status = AccountStatus::Destroyed;
    let h = b.hash_state_slow();
    assert_eq!(h.accounts.len(), 5);
    assert_eq!(h.storage.len(), 5);
    for i in 1..5 {
        let (p, q) = (h.accounts[i - 1].hashed_address, h.accounts[i].hashed_address);
        assert!((p.hi, p.lo) <= (q.hi, q.lo));
    }
    assert_eq!(h.accounts.iter().filter(|a| a.wiped).count(), 1);
}

#[test]
fn wiping_record_writes_persisted_slots_merged() {
    let mut store = Store::new();
    store.set_slot(addr(7), w(2), w(20));
    let reverts = StateReverts::from(vec![vec![AccountRevert {
        address: addr(7),
        account: AccountInfoRevert::DoNothing,
        storage: vec![entry(1, 10)],
        wipe_storage: true,
        previous_status: AccountStatus::Changed,
    }]]);
    reverts.write_to_db(&mut store, 3);
    let rows: Vec<(u64, Address, StorageEntry)> = store.storage_changesets.iter().map(|r| (r.block, r.address, r.entry)).collect();
    assert_eq!(rows, vec![(3, addr(7), entry(1, 10)), (3, addr(7), entry(2, 20))]);
    assert!(store.plain_storage.is_empty());
    assert!(store.account_changesets.is_empty());
}

#[test]
fn accounts_iter_yields_each_address_once() {
    let b = BundleState::new(
        vec![
            BundleAccount { address: addr(1), original_info: None, info: Some(acc(1)), status: AccountStatus::Changed },
            BundleAccount { address: addr(2), original_info: None, info: None, status: AccountStatus::Changed },
            BundleAccount { address: addr(1), original_info: None, info: Some(acc(5)), status: AccountStatus::Changed },
        ],
        Vec::new(),
        Vec::new(),
        Vec::new(),
        Vec::new(),
        0,
    );
    assert_eq!(b.accounts_iter(), vec![(addr(2), None), (addr(1), Some(acc(5)))]);
    assert_eq!(b.account(&addr(1)), Some(Some(acc(5))));
}

#[test]
fn bytecode_returns_first_entry() {
    let b = BundleState::new_init(
        Vec::new(),
        Vec::new(),
        vec![(w(5), Bytecode(vec![1])), (w(5), Bytecode(vec![2]))],
        Vec::new(),
        0,
    );
    assert_eq!(b.bytecode(&w(5)).unwrap().0, vec![1]);
}

#[test]
fn code_write_stores_last_code_for_hash() {
    let mut store = Store::new();
    store.put_bytecode(w(9), Bytecode(vec![9]));
    let change = StateChange {
        accounts: Vec::new(),
        storage: Vec::new(),
        contracts: vec![(w(5), Bytecode(vec![1])), (w(5), Bytecode(vec![2]))],
    };
    change.write_to_db(&mut store);
    assert_eq!(store.bytecodes.len(), 2);
    assert!(store.bytecodes.iter().any(|(h, c)| *h == w(5) && c.0 == vec![2]));
    assert!(store.bytecodes.iter().any(|(h, c)| *h == w(9) && c.0 == vec![9]));
}

#[test]
fn flush_writes_back_unchanged_slot_of_wiped_account() {
    let mut store = Store::new();
    store.set_slot(addr(4), w(1), w(5));
    store.set_account(addr(4), Some(acc(1)));
    let b = BundleState::new(
        vec![BundleAccount {
            address: addr(4),
            original_info: Some(acc(1)),
            info: Some(acc(2)),
            status: AccountStatus::DestroyedAndRecreated,
        }],
        vec![StorageSlot { address: addr(4), key: w(1), original_value: w(5), present_value: w(5) }],
        Vec::new(),
        vec![vec![AccountRevert {
            address: addr(4),
            account: AccountInfoRevert::RevertTo(acc(1)),
            storage: Vec::new(),
            wipe_storage: true,
            previous_status: AccountStatus::Changed,
        }]],
        vec![Vec::new()],
        20,
    );
    b.write_to_db(&mut store, false);
    assert_eq!(store.plain_storage, vec![PlainSlot { address: addr(4), key: w(1), value: w(5) }]);
    assert_eq!(store.plain_accounts, vec![(addr(4), acc(2))]);
    let rows: Vec<(u64, StorageEntry)> = store.storage_changesets.iter().map(|r| (r.block, r.entry)).collect();
    assert_eq!(rows, vec![(20, entry(1, 5))]);
}
