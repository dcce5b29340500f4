//! Laws relating the aggregator's operations.
use vstd::prelude::*;
use crate::types::{Address, StorageEntry, U256, lemma_u256_view_injective};
use crate::state::{
    AccountRevert, BundleAccount, StateMaps, StorageSlot, account_map, extend_accounts, extend_slots, is_last_account,
    is_last_slot, lemma_account_map_contains, lemma_slot_map_contains, slot_map, undo_blocks, undo_records, undo_slots,
    wiped_slots,
};
use crate::bundle::BundleState;
use crate::journal::{block_history_rows, held_slots, lemma_merge_spec, merge_spec, record_rows, storage_history_rows, wipes_address, wipes_in, account_row, account_rows, block_account_rows, block_storage_rows, recorded_storage_rows, storage_rows};
use crate::store::{AccountBeforeTx, PlainSlot, StorageBeforeTx, slot_before, slots_of};
use crate::types::{Account, has_entry, has_key, keys_ascending};

verus! {

/// Some record of the list restores the account's fields.
pub open spec fn touches_account_in(recs: Seq<AccountRevert>, x: Address) -> bool {
    exists|i: int| 0 <= i < recs.len() && #[trigger] recs[i].address == x && !(recs[i].account is DoNothing)
}

/// Some record of the blocks restores the account's fields.
pub open spec fn touches_account(blocks: Seq<Vec<AccountRevert>>, x: Address) -> bool {
    exists|b: int| 0 <= b < blocks.len() && touches_account_in(#[trigger] blocks[b]@, x)
}

/// Some entry of the slot list has this key.
pub open spec fn lists_key(s: Seq<StorageEntry>, k: U256) -> bool {
    exists|j: int| 0 <= j < s.len() && #[trigger] s[j].key == k
}

/// Some record of the list restores the slot.
pub open spec fn touches_slot_in(recs: Seq<AccountRevert>, a: Address, k: U256) -> bool {
    exists|i: int| 0 <= i < recs.len() && #[trigger] recs[i].address == a && lists_key(recs[i].storage@, k)
}

/// Some record of the blocks restores the slot.
pub open spec fn touches_slot(blocks: Seq<Vec<AccountRevert>>, a: Address, k: U256) -> bool {
    exists|b: int| 0 <= b < blocks.len() && touches_slot_in(#[trigger] blocks[b]@, a, k)
}

proof fn lemma_undo_slots_frame(m: Map<(Address, U256), StorageSlot>, a: Address, s: Seq<StorageEntry>, key: (Address, U256))
    ensures
        !(key.0 == a && lists_key(s, key.1)) ==> undo_slots(m, a, s).contains_key(key) == m.contains_key(key)
            && (m.contains_key(key) ==> undo_slots(m, a, s)[key] == m[key]),
        undo_slots(m, a, s).contains_key(key) ==> m.contains_key(key) || (key.0 == a && lists_key(s, key.1)),
    decreases s.len(),
{
    if s.len() > 0 {
        lemma_undo_slots_frame(m, a, s.drop_last(), key);
        if lists_key(s.drop_last(), key.1) {
            let j = choose|j: int| 0 <= j < s.drop_last().len() && #[trigger] s.drop_last()[j].key == key.1;
            assert(s[j].key == key.1);
        }
        if key.0 == a && s.last().key == key.1 {
            assert(s[s.len() - 1].key == key.1);
        }
    }
}

proof fn lemma_undo_records_frame(m: StateMaps, recs: Seq<AccountRevert>, x: Address, key: (Address, U256))
    ensures
        !touches_account_in(recs, x) ==> undo_records(m, recs).0.contains_key(x) == m.0.contains_key(x)
            && (m.0.contains_key(x) ==> undo_records(m, recs).0[x].info == m.0[x].info),
        undo_records(m, recs).0.contains_key(x) ==> m.0.contains_key(x) || touches_account_in(recs, x),
        !touches_slot_in(recs, key.0, key.1) ==> undo_records(m, recs).1.contains_key(key) == m.1.contains_key(key)
            && (m.1.contains_key(key) ==> undo_records(m, recs).1[key] == m.1[key]),
        undo_records(m, recs).1.contains_key(key) ==> m.1.contains_key(key) || touches_slot_in(recs, key.0, key.1),
    decreases recs.len(),
{
    if recs.len() > 0 {
        let t = recs.drop_last();
        let r = recs.last();
        lemma_undo_records_frame(m, t, x, key);
        let m1 = undo_records(m, t);
        lemma_undo_slots_frame(m1.1, r.address, r.storage@, key);
        assert(r == recs[recs.len() - 1]);
        if touches_account_in(t, x) {
            let i = choose|i: int| 0 <= i < t.len() && #[trigger] t[i].address == x && !(t[i].account is DoNothing);
            assert(recs[i] == t[i]);
        }
        if touches_slot_in(t, key.0, key.1) {
            let i = choose|i: int| 0 <= i < t.len() && #[trigger] t[i].address == key.0 && lists_key(t[i].storage@, key.1);
            assert(recs[i] == t[i]);
        }
    }
}

proof fn lemma_undo_blocks_frame(m: StateMaps, blocks: Seq<Vec<AccountRevert>>, x: Address, key: (Address, U256))
    ensures
        !touches_account(blocks, x) ==> undo_blocks(m, blocks).0.contains_key(x) == m.0.contains_key(x)
            && (m.0.contains_key(x) ==> undo_blocks(m, blocks).0[x].info == m.0[x].info),
        undo_blocks(m, blocks).0.contains_key(x) ==> m.0.contains_key(x) || touches_account(blocks, x),
        !touches_slot(blocks, key.0, key.1) ==> undo_blocks(m, blocks).1.contains_key(key) == m.1.contains_key(key)
            && (m.1.contains_key(key) ==> undo_blocks(m, blocks).1[key] == m.1[key]),
        undo_blocks(m, blocks).1.contains_key(key) ==> m.1.contains_key(key) || touches_slot(blocks, key.0, key.1),
    decreases blocks.len(),
{
    if blocks.len() > 0 {
        let t = blocks.drop_last();
        let last = blocks.last();
        assert(last == blocks[blocks.len() - 1]);
        lemma_undo_records_frame(m, last@, x, key);
        let m1 = undo_records(m, last@);
        lemma_undo_blocks_frame(m1, t, x, key);
        if touches_account(t, x) {
            let b = choose|b: int| 0 <= b < t.len() && touches_account_in(#[trigger] t[b]@, x);
            assert(blocks[b] == t[b]);
        }
        if touches_slot(t, key.0, key.1) {
            let b = choose|b: int| 0 <= b < t.len() && touches_slot_in(#[trigger] t[b]@, key.0, key.1);
            assert(blocks[b] == t[b]);
        }
    }
}

proof fn lemma_extend_accounts(m: Map<Address, BundleAccount>, s: Seq<BundleAccount>, x: Address)
    ensures
        account_map(s).contains_key(x) ==> extend_accounts(m, s).contains_key(x)
            && extend_accounts(m, s)[x].info == account_map(s)[x].info,
        !account_map(s).contains_key(x) ==> extend_accounts(m, s).contains_key(x) == m.contains_key(x)
            && (m.contains_key(x) ==> extend_accounts(m, s)[x] == m[x]),
    decreases s.len(),
{
    if s.len() > 0 {
        lemma_extend_accounts(m, s.drop_last(), x);
    }
}

proof fn lemma_extend_slots(m: Map<(Address, U256), StorageSlot>, s: Seq<StorageSlot>, key: (Address, U256))
    ensures
        slot_map(s).contains_key(key) ==> extend_slots(m, s).contains_key(key)
            && extend_slots(m, s)[key].present_value == slot_map(s)[key].present_value,
        !slot_map(s).contains_key(key) ==> extend_slots(m, s).contains_key(key) == m.contains_key(key)
            && (m.contains_key(key) ==> extend_slots(m, s)[key] == m[key]),
    decreases s.len(),
{
    if s.len() > 0 {
        lemma_extend_slots(m, s.drop_last(), key);
    }
}

/// The diff `d` holds exactly the later blocks that `revert_to` removes from
/// `a`: their receipts, and for every account and slot those blocks changed,
/// its present value in `a`; an account it marks destroyed comes with every
/// slot that `a` tracks for it with a non-zero present value.
pub open spec fn is_removed_diff(a: BundleState, i: int, d: BundleState) -> bool {
    let len = a.receipts@.len() as int;
    let removed = a.reverts@.subrange(i + 1, len);
    &&& d.receipts@ == a.receipts@.subrange(i + 1, len)
    &&& forall|j: int| 0 <= j < d.accounts@.len() ==> {
        let x = #[trigger] d.accounts@[j];
        &&& a.maps().0.contains_key(x.address)
        &&& x.info == a.maps().0[x.address].info
        &&& x.status.destroyed() ==> forall|k: U256| #[trigger] a.maps().1.contains_key((x.address, k))
            ==> (slot_map(d.storage@).contains_key((x.address, k)) || a.maps().1[(x.address, k)].present_value@ == 0)
    }
    &&& forall|j: int| 0 <= j < d.storage@.len() ==> {
        let x = #[trigger] d.storage@[j];
        &&& a.maps().1.contains_key((x.address, x.key))
        &&& x.present_value == a.maps().1[(x.address, x.key)].present_value
    }
    &&& forall|x: Address| touches_account(removed, x) ==> #[trigger] account_map(d.accounts@).contains_key(x)
    &&& forall|x: Address, k: U256| touches_slot(removed, x, k) ==> #[trigger] slot_map(d.storage@).contains_key((x, k))
}

/// Reverting to a block and then extending by the diff of the removed blocks
/// gives back the same tracked accounts and slots with the same present
/// values, and the same receipts.
pub proof fn lemma_revert_then_extend(a: BundleState, block_number: u64, d: BundleState)
    requires
        a.wf(),
        a.spec_index_of(block_number) is Some,
        is_removed_diff(a, a.spec_index_of(block_number).unwrap() as int, d),
    ensures
        ({
            let i = a.spec_index_of(block_number).unwrap() as int;
            let len = a.receipts@.len() as int;
            let m1 = undo_blocks(a.maps(), a.reverts@.subrange(i + 1, len));
            let accts = extend_accounts(m1.0, d.accounts@);
            let slots = extend_slots(wiped_slots(m1.1, account_map(d.accounts@)), d.storage@);
            &&& a.receipts@.take(i + 1) + d.receipts@ == a.receipts@
            &&& accts.dom() == a.maps().0.dom()
            &&& forall|x: Address| #[trigger] accts.contains_key(x) ==> accts[x].info == a.maps().0[x].info
            &&& slots.dom() == a.maps().1.dom()
            &&& forall|key: (Address, U256)| #[trigger] slots.contains_key(key)
                ==> slots[key].present_value == a.maps().1[key].present_value
        }),
{
    let i = a.spec_index_of(block_number).unwrap() as int;
    let len = a.receipts@.len() as int;
    let removed = a.reverts@.subrange(i + 1, len);
    let m0 = a.maps();
    let m1 = undo_blocks(m0, removed);
    let da = account_map(d.accounts@);
    let ds = slot_map(d.storage@);
    let accts = extend_accounts(m1.0, d.accounts@);
    let w = wiped_slots(m1.1, da);
    let slots = extend_slots(w, d.storage@);
    assert(a.receipts@.take(i + 1) + d.receipts@ =~= a.receipts@);
    assert forall|x: Address| accts.contains_key(x) <==> m0.0.contains_key(x) by {
        let key = (x, U256 { hi: 0, lo: 0 });
        lemma_undo_blocks_frame(m0, removed, x, key);
        lemma_extend_accounts(m1.0, d.accounts@, x);
        lemma_account_map_contains(d.accounts@, x);
        if da.contains_key(x) {
            let j = choose|j: int| 0 <= j < d.accounts@.len() && #[trigger] d.accounts@[j].address == x
                && is_last_account(d.accounts@, j) && d.accounts@[j] == da[x];
        }
    }
    assert(accts.dom() =~= m0.0.dom());
    assert forall|x: Address| #[trigger] accts.contains_key(x) implies accts[x].info == m0.0[x].info by {
        let key = (x, U256 { hi: 0, lo: 0 });
        lemma_undo_blocks_frame(m0, removed, x, key);
        lemma_extend_accounts(m1.0, d.accounts@, x);
        lemma_account_map_contains(d.accounts@, x);
        if da.contains_key(x) {
            let j = choose|j: int| 0 <= j < d.accounts@.len() && #[trigger] d.accounts@[j].address == x
                && is_last_account(d.accounts@, j) && d.accounts@[j] == da[x];
        }
    }
    assert forall|key: (Address, U256)| w.contains_key(key) && !ds.contains_key(key) implies w[key].present_value
        == m1.1[key].present_value by {
        lemma_undo_blocks_frame(m0, removed, key.0, key);
        lemma_account_map_contains(d.accounts@, key.0);
        if da.contains_key(key.0) && da[key.0].status.destroyed() {
            let j = choose|j: int| 0 <= j < d.accounts@.len() && #[trigger] d.accounts@[j].address == key.0
                && is_last_account(d.accounts@, j) && d.accounts@[j] == da[key.0];
            assert(d.accounts@[j].status.destroyed());
            if m0.1.contains_key(key) {
                assert(a.maps().1.contains_key((d.accounts@[j].address, key.1)));
                assert(m0.1[key].present_value@ == 0);
                assert(m1.1[key] == m0.1[key]);
                lemma_u256_view_injective(m0.1[key].present_value, U256 { hi: 0, lo: 0 });
            }
        }
    }
    assert(w.dom() =~= m1.1.dom());
    assert forall|key: (Address, U256)| slots.contains_key(key) <==> m0.1.contains_key(key) by {
        lemma_undo_blocks_frame(m0, removed, key.0, key);
        lemma_extend_slots(w, d.storage@, key);
        lemma_slot_map_contains(d.storage@, key.0, key.1);
        if ds.contains_key(key) {
            let j = choose|j: int| 0 <= j < d.storage@.len() && #[trigger] d.storage@[j].address == key.0
                && d.storage@[j].key == key.1 && is_last_slot(d.storage@, j) && d.storage@[j] == ds[key];
        }
    }
    assert(slots.dom() =~= m0.1.dom());
    assert forall|key: (Address, U256)| #[trigger] slots.contains_key(key) implies slots[key].present_value
        == m0.1[key].present_value by {
        lemma_undo_blocks_frame(m0, removed, key.0, key);
        lemma_extend_slots(w, d.storage@, key);
        lemma_slot_map_contains(d.storage@, key.0, key.1);
        if ds.contains_key(key) {
            let j = choose|j: int| 0 <= j < d.storage@.len() && #[trigger] d.storage@[j].address == key.0
                && d.storage@[j].key == key.1 && is_last_slot(d.storage@, j) && d.storage@[j] == ds[key];
        }
    }
}

/// The value that replaying account change-set rows backward gives an
/// address: that of its earliest row, if it has one.
pub open spec fn earliest_row_info(rows: Seq<AccountBeforeTx>, x: Address) -> Option<Option<Account>>
    decreases rows.len(),
{
    if rows.len() == 0 {
        None
    } else if rows[0].address == x {
        Some(rows[0].info)
    } else {
        earliest_row_info(rows.drop_first(), x)
    }
}

/// Each block has at most one record per address.
pub open spec fn one_record_per_address(blocks: Seq<Vec<AccountRevert>>) -> bool {
    forall|b: int, i: int, j: int|
        0 <= b < blocks.len() && 0 <= i < j < blocks[b]@.len() ==> #[trigger] blocks[b]@[i].address != #[trigger] blocks[b]@[j].address
}

proof fn lemma_earliest_concat(s1: Seq<AccountBeforeTx>, s2: Seq<AccountBeforeTx>, x: Address)
    ensures
        earliest_row_info(s1 + s2, x) == if earliest_row_info(s1, x) is Some {
            earliest_row_info(s1, x)
        } else {
            earliest_row_info(s2, x)
        },
    decreases s1.len(),
{
    if s1.len() > 0 {
        assert((s1 + s2).drop_first() == s1.drop_first() + s2);
        assert((s1 + s2)[0] == s1[0]);
        lemma_earliest_concat(s1.drop_first(), s2, x);
    } else {
        assert(s1 + s2 == s2);
    }
}

proof fn lemma_block_rows_replay(m: StateMaps, b: int, recs: Seq<AccountRevert>, x: Address)
    requires
        forall|i: int, j: int| 0 <= i < j < recs.len() ==> #[trigger] recs[i].address != #[trigger] recs[j].address,
    ensures
        earliest_row_info(block_account_rows(b, recs), x) is Some <==> touches_account_in(recs, x),
        earliest_row_info(block_account_rows(b, recs), x) matches Some(info) ==> undo_records(m, recs).0.contains_key(x)
            && undo_records(m, recs).0[x].info == info,
    decreases recs.len(),
{
    if recs.len() > 0 {
        let t = recs.drop_last();
        let r = recs.last();
        assert(r == recs[recs.len() - 1]);
        lemma_block_rows_replay(m, b, t, x);
        lemma_earliest_concat(block_account_rows(b, t), account_row(b, r), x);
        lemma_undo_records_frame(m, t, x, (x, U256 { hi: 0, lo: 0 }));
        let row = account_row(b, r);
        if r.account is DoNothing {
            assert(row =~= Seq::<AccountBeforeTx>::empty());
            assert(earliest_row_info(row, x) is None);
        } else {
            assert(row.len() == 1);
            assert(row[0].address == r.address);
            assert(row.drop_first() =~= Seq::<AccountBeforeTx>::empty());
            assert(earliest_row_info(row.drop_first(), x) is None);
            if r.address == x {
                assert(earliest_row_info(row, x) == Some(row[0].info));
            } else {
                assert(earliest_row_info(row, x) is None);
            }
        }
        if touches_account_in(t, x) {
            let i = choose|i: int| 0 <= i < t.len() && #[trigger] t[i].address == x && !(t[i].account is DoNothing);
            assert(recs[i] == t[i]);
        }
        if touches_account_in(recs, x) && !touches_account_in(t, x) {
            let i = choose|i: int| 0 <= i < recs.len() && #[trigger] recs[i].address == x && !(recs[i].account is DoNothing);
            if i < t.len() {
                assert(t[i] == recs[i]);
            }
        }
        if r.address == x && !(r.account is DoNothing) {
            assert forall|i: int| 0 <= i < t.len() implies #[trigger] t[i].address != x by {
                assert(recs[i] == t[i]);
                assert(recs[i].address != recs[recs.len() - 1].address);
            }
            assert(!touches_account_in(t, x));
            assert(touches_account_in(recs, x)) by {
                assert(recs[recs.len() - 1].address == x);
            }
        }
    }
}

/// Replaying the persisted account change-set of a run of blocks backward,
/// so that each address takes the value of its earliest row, gives the
/// accounts that undoing all those blocks in memory gives; an address with
/// no row keeps its value.
pub proof fn lemma_account_history_replays_undo(m: StateMaps, blocks: Seq<Vec<AccountRevert>>, first: int, x: Address)
    requires
        one_record_per_address(blocks),
    ensures
        earliest_row_info(account_rows(blocks, first), x) matches Some(info) ==> undo_blocks(m, blocks).0.contains_key(x)
            && undo_blocks(m, blocks).0[x].info == info,
        earliest_row_info(account_rows(blocks, first), x) is None ==> undo_blocks(m, blocks).0.contains_key(x)
            == m.0.contains_key(x) && (m.0.contains_key(x) ==> undo_blocks(m, blocks).0[x].info == m.0[x].info),
    decreases blocks.len(),
{
    if blocks.len() > 0 {
        let t = blocks.drop_last();
        let last = blocks.last();
        assert(last == blocks[blocks.len() - 1]);
        let m1 = undo_records(m, last@);
        assert(one_record_per_address(t)) by {
            assert forall|b: int, i: int, j: int| 0 <= b < t.len() && 0 <= i < j < t[b]@.len()
                implies #[trigger] t[b]@[i].address != #[trigger] t[b]@[j].address by {
                assert(t[b] == blocks[b]);
            }
        }
        lemma_account_history_replays_undo(m1, t, first, x);
        lemma_earliest_concat(account_rows(t, first), block_account_rows(first + blocks.len() - 1, last@), x);
        assert forall|i: int, j: int| 0 <= i < j < last@.len() implies #[trigger] last@[i].address != #[trigger] last@[j].address by {
            assert(blocks[blocks.len() - 1]@[i].address != blocks[blocks.len() - 1]@[j].address);
        }
        lemma_block_rows_replay(m, first + blocks.len() - 1, last@, x);
        lemma_undo_records_frame(m, last@, x, (x, U256 { hi: 0, lo: 0 }));
    }
}

/// The value that replaying storage change-set rows backward gives a slot:
/// that of its earliest row, if it has one.
pub open spec fn earliest_slot_row(rows: Seq<StorageBeforeTx>, a: Address, k: U256) -> Option<U256>
    decreases rows.len(),
{
    if rows.len() == 0 {
        None
    } else if rows[0].address == a && rows[0].entry.key == k {
        Some(rows[0].entry.value)
    } else {
        earliest_slot_row(rows.drop_first(), a, k)
    }
}

proof fn lemma_earliest_slot_concat(s1: Seq<StorageBeforeTx>, s2: Seq<StorageBeforeTx>, a: Address, k: U256)
    ensures
        earliest_slot_row(s1 + s2, a, k) == if earliest_slot_row(s1, a, k) is Some {
            earliest_slot_row(s1, a, k)
        } else {
            earliest_slot_row(s2, a, k)
        },
    decreases s1.len(),
{
    if s1.len() > 0 {
        assert((s1 + s2).drop_first() == s1.drop_first() + s2);
        assert((s1 + s2)[0] == s1[0]);
        lemma_earliest_slot_concat(s1.drop_first(), s2, a, k);
    } else {
        assert(s1 + s2 == s2);
    }
}

proof fn lemma_slot_rows_replay(m: Map<(Address, U256), StorageSlot>, b: int, a: Address, s: Seq<StorageEntry>, k: U256)
    requires
        keys_ascending(s),
    ensures
        earliest_slot_row(storage_rows(b, a, s), a, k) is Some <==> lists_key(s, k),
        earliest_slot_row(storage_rows(b, a, s), a, k) matches Some(v) ==> undo_slots(m, a, s).contains_key((a, k))
            && undo_slots(m, a, s)[(a, k)].present_value == v,
        forall|x: Address| x != a ==> earliest_slot_row(storage_rows(b, a, s), x, k) is None,
    decreases s.len(),
{
    if s.len() > 0 {
        let t = s.drop_last();
        let e = s.last();
        assert(e == s[s.len() - 1]);
        assert(keys_ascending(t)) by {
            assert forall|i: int, j: int| 0 <= i < j < t.len() implies #[trigger] t[i].key@ < #[trigger] t[j].key@ by {
                assert(s[i].key@ < s[j].key@);
            }
        }
        lemma_slot_rows_replay(m, b, a, t, k);
        let row = seq![StorageBeforeTx { block: b as u64, address: a, entry: e }];
        assert(storage_rows(b, a, s) =~= storage_rows(b, a, t) + row);
        lemma_earliest_slot_concat(storage_rows(b, a, t), row, a, k);
        assert(row.len() == 1 && row[0].address == a && row[0].entry == e);
        assert(row.drop_first() =~= Seq::<StorageBeforeTx>::empty());
        assert(earliest_slot_row(row.drop_first(), a, k) is None);
        assert(earliest_slot_row(row, a, k) == if e.key == k { Some(e.value) } else { None::<U256> });
        assert forall|x: Address| x != a implies earliest_slot_row(storage_rows(b, a, s), x, k) is None by {
            lemma_earliest_slot_concat(storage_rows(b, a, t), row, x, k);
            assert(earliest_slot_row(row.drop_first(), x, k) is None);
        }
        if lists_key(t, k) {
            let j = choose|j: int| 0 <= j < t.len() && #[trigger] t[j].key == k;
            assert(s[j] == t[j]);
            assert(s[j].key@ < s[s.len() - 1].key@);
        }
        if e.key == k {
            assert(s[s.len() - 1].key == k);
            if lists_key(t, k) {
                let j = choose|j: int| 0 <= j < t.len() && #[trigger] t[j].key == k;
                assert(s[j].key@ < s[s.len() - 1].key@);
            }
        } else if lists_key(s, k) {
            let j = choose|j: int| 0 <= j < s.len() && #[trigger] s[j].key == k;
            assert(t[j] == s[j]);
        }
    }
}

proof fn lemma_block_slot_rows_replay(m: StateMaps, b: int, recs: Seq<AccountRevert>, a: Address, k: U256)
    requires
        forall|i: int, j: int| 0 <= i < j < recs.len() ==> #[trigger] recs[i].address != #[trigger] recs[j].address,
        forall|i: int| 0 <= i < recs.len() ==> keys_ascending(#[trigger] recs[i].storage@),
    ensures
        earliest_slot_row(block_storage_rows(b, recs), a, k) is Some <==> touches_slot_in(recs, a, k),
        earliest_slot_row(block_storage_rows(b, recs), a, k) matches Some(v) ==> undo_records(m, recs).1.contains_key((a, k))
            && undo_records(m, recs).1[(a, k)].present_value == v,
    decreases recs.len(),
{
    if recs.len() > 0 {
        let t = recs.drop_last();
        let r = recs.last();
        assert(r == recs[recs.len() - 1]);
        lemma_block_slot_rows_replay(m, b, t, a, k);
        let m1 = undo_records(m, t);
        lemma_earliest_slot_concat(block_storage_rows(b, t), storage_rows(b, r.address, r.storage@), a, k);
        lemma_slot_rows_replay(m1.1, b, r.address, r.storage@, k);
        lemma_undo_slots_frame(m1.1, r.address, r.storage@, (a, k));
        lemma_undo_records_frame(m, t, a, (a, k));
        if touches_slot_in(t, a, k) {
            let i = choose|i: int| 0 <= i < t.len() && #[trigger] t[i].address == a && lists_key(t[i].storage@, k);
            assert(recs[i] == t[i]);
            assert(recs[i].address != recs[recs.len() - 1].address);
        }
        if touches_slot_in(recs, a, k) && !touches_slot_in(t, a, k) {
            let i = choose|i: int| 0 <= i < recs.len() && #[trigger] recs[i].address == a && lists_key(recs[i].storage@, k);
            if i < t.len() {
                assert(t[i] == recs[i]);
            }
        }
        if r.address == a && lists_key(r.storage@, k) {
            assert(touches_slot_in(recs, a, k)) by {
                assert(recs[recs.len() - 1].address == a);
            }
        }
    }
}

/// Replaying the persisted storage change-set of a run of blocks backward,
/// as written when no wiped account had persisted slots, so that each slot
/// takes the value of its earliest row, gives the slots that undoing all
/// those blocks in memory gives; a slot with no row keeps its value.
pub proof fn lemma_storage_history_replays_undo(m: StateMaps, blocks: Seq<Vec<AccountRevert>>, first: int, a: Address, k: U256)
    requires
        one_record_per_address(blocks),
        forall|b: int, i: int| 0 <= b < blocks.len() && 0 <= i < blocks[b]@.len() ==> keys_ascending(#[trigger] blocks[b]@[i].storage@),
    ensures
        earliest_slot_row(recorded_storage_rows(blocks, first), a, k) matches Some(v) ==> undo_blocks(m, blocks).1.contains_key((a, k))
            && undo_blocks(m, blocks).1[(a, k)].present_value == v,
        earliest_slot_row(recorded_storage_rows(blocks, first), a, k) is None ==> undo_blocks(m, blocks).1.contains_key((a, k))
            == m.1.contains_key((a, k)) && (m.1.contains_key((a, k)) ==> undo_blocks(m, blocks).1[(a, k)] == m.1[(a, k)]),
    decreases blocks.len(),
{
    if blocks.len() > 0 {
        let t = blocks.drop_last();
        let last = blocks.last();
        assert(last == blocks[blocks.len() - 1]);
        let m1 = undo_records(m, last@);
        assert(one_record_per_address(t)) by {
            assert forall|b: int, i: int, j: int| 0 <= b < t.len() && 0 <= i < j < t[b]@.len()
                implies #[trigger] t[b]@[i].address != #[trigger] t[b]@[j].address by {
                assert(t[b] == blocks[b]);
            }
        }
        assert forall|b: int, i: int| 0 <= b < t.len() && 0 <= i < t[b]@.len() implies keys_ascending(#[trigger] t[b]@[i].storage@) by {
            assert(t[b] == blocks[b]);
        }
        lemma_storage_history_replays_undo(m1, t, first, a, k);
        lemma_earliest_slot_concat(recorded_storage_rows(t, first), block_storage_rows(first + blocks.len() - 1, last@), a, k);
        assert forall|i: int, j: int| 0 <= i < j < last@.len() implies #[trigger] last@[i].address != #[trigger] last@[j].address by {
            assert(blocks[blocks.len() - 1]@[i].address != blocks[blocks.len() - 1]@[j].address);
        }
        assert forall|i: int| 0 <= i < last@.len() implies keys_ascending(#[trigger] last@[i].storage@) by {
            assert(keys_ascending(blocks[blocks.len() - 1]@[i].storage@));
        }
        lemma_block_slot_rows_replay(m, first + blocks.len() - 1, last@, a, k);
        lemma_undo_records_frame(m, last@, a, (a, k));
    }
}

/// Some slot of the sequence has address `a` and key `k`.
pub open spec fn holds_slot(s: Seq<PlainSlot>, a: Address, k: U256) -> bool {
    exists|j: int| 0 <= j < s.len() && (#[trigger] s[j]).address == a && s[j].key == k
}

/// The slots of an address in a strictly sorted slot sequence ascend by key.
pub proof fn lemma_slots_of_ascending(s: Seq<PlainSlot>, a: Address)
    requires
        forall|i: int, j: int| 0 <= i < j < s.len() ==> slot_before(#[trigger] s[i], #[trigger] s[j]),
    ensures
        keys_ascending(slots_of(s, a)),
        forall|p: int| 0 <= p < slots_of(s, a).len() ==> holds_slot(s, a, (#[trigger] slots_of(s, a)[p]).key),
    decreases s.len(),
{
    if s.len() > 0 {
        let t = s.drop_last();
        lemma_slots_of_ascending(t, a);
        let o = slots_of(t, a);
        assert forall|p: int| 0 <= p < o.len() implies holds_slot(s, a, (#[trigger] o[p]).key) by {
            assert(holds_slot(t, a, o[p].key));
            let j = choose|j: int| 0 <= j < t.len() && (#[trigger] t[j]).address == a && t[j].key == o[p].key;
            assert(s[j] == t[j]);
        }
        if s.last().address == a {
            let n = slots_of(s, a);
            assert(n == o.push(StorageEntry { key: s.last().key, value: s.last().value }));
            assert forall|p: int, q: int| 0 <= p < q < n.len() implies #[trigger] n[p].key@ < #[trigger] n[q].key@ by {
                if q < o.len() {
                    assert(o[p].key@ < o[q].key@);
                } else {
                    assert(holds_slot(t, a, o[p].key));
                    let j = choose|j: int| 0 <= j < t.len() && (#[trigger] t[j]).address == a && t[j].key == o[p].key;
                    assert(s[j] == t[j]);
                    assert(slot_before(s[j], s[s.len() - 1]));
                }
            }
            assert forall|p: int| 0 <= p < n.len() implies holds_slot(s, a, (#[trigger] n[p]).key) by {
                if p < o.len() {
                    assert(n[p] == o[p]);
                } else {
                    assert(s[s.len() - 1].address == a);
                }
            }
        }
    }
}

/// `x` is a prefix of `y`.
pub open spec fn is_prefix(x: Seq<StorageBeforeTx>, y: Seq<StorageBeforeTx>) -> bool {
    x.len() <= y.len() && y.subrange(0, x.len() as int) == x
}

proof fn lemma_prefix_trans(x: Seq<StorageBeforeTx>, y: Seq<StorageBeforeTx>, z: Seq<StorageBeforeTx>)
    requires
        is_prefix(x, y),
        is_prefix(y, z),
    ensures
        is_prefix(x, z),
{
    assert(z.subrange(0, x.len() as int) == y.subrange(0, x.len() as int));
}

proof fn lemma_block_rows_prefix(plain0: Seq<PlainSlot>, prior: Seq<Vec<AccountRevert>>, b: int, recs: Seq<AccountRevert>, n: int)
    requires
        0 <= n <= recs.len(),
    ensures
        is_prefix(block_history_rows(plain0, prior, b, recs.take(n)), block_history_rows(plain0, prior, b, recs)),
    decreases recs.len(),
{
    if n == recs.len() {
        assert(recs.take(n) == recs);
        let x = block_history_rows(plain0, prior, b, recs);
        assert(x.subrange(0, x.len() as int) =~= x);
    } else {
        let t = recs.drop_last();
        lemma_block_rows_prefix(plain0, prior, b, t, n);
        assert(t.take(n) == recs.take(n));
        let y = block_history_rows(plain0, prior, b, t);
        let z = block_history_rows(plain0, prior, b, recs);
        assert(z.subrange(0, y.len() as int) == y);
        lemma_prefix_trans(block_history_rows(plain0, prior, b, recs.take(n)), y, z);
    }
}

proof fn lemma_history_rows_prefix(plain0: Seq<PlainSlot>, blocks: Seq<Vec<AccountRevert>>, first: int, n: int)
    requires
        0 <= n <= blocks.len(),
    ensures
        is_prefix(storage_history_rows(plain0, blocks.take(n), first), storage_history_rows(plain0, blocks, first)),
    decreases blocks.len(),
{
    if n == blocks.len() {
        assert(blocks.take(n) == blocks);
        let x = storage_history_rows(plain0, blocks, first);
        assert(x.subrange(0, x.len() as int) =~= x);
    } else {
        let t = blocks.drop_last();
        lemma_history_rows_prefix(plain0, t, first, n);
        assert(t.take(n) == blocks.take(n));
        let y = storage_history_rows(plain0, t, first);
        let z = storage_history_rows(plain0, blocks, first);
        assert(z.subrange(0, y.len() as int) == y);
        lemma_prefix_trans(storage_history_rows(plain0, blocks.take(n), first), y, z);
    }
}

/// In the storage change-set that a run of blocks writes over the sorted
/// persisted slots `plain0`, a wiping record whose address no earlier
/// record wiped writes, right after the rows of the records before it, the
/// address's persisted slots merged with its own: ascending by key, every
/// key of either once, every entry of the record, and a persisted entry
/// exactly when the record lacks its key.
pub proof fn lemma_wiping_record_rows(plain0: Seq<PlainSlot>, blocks: Seq<Vec<AccountRevert>>, first: int, c: int, i: int)
    requires
        forall|p: int, q: int| 0 <= p < q < plain0.len() ==> slot_before(#[trigger] plain0[p], #[trigger] plain0[q]),
        0 <= c < blocks.len(),
        0 <= i < blocks[c]@.len(),
        blocks[c]@[i].wipe_storage,
        keys_ascending(blocks[c]@[i].storage@),
        !wipes_address(blocks.take(c), blocks[c]@[i].address),
        !wipes_in(blocks[c]@.take(i), blocks[c]@[i].address),
    ensures
        ({
            let r = blocks[c]@[i];
            let held = slots_of(plain0, r.address);
            let m = merge_spec(held, r.storage@);
            let rows = storage_rows(first + c, r.address, m);
            let pre = storage_history_rows(plain0, blocks.take(c), first) + block_history_rows(
                plain0,
                blocks.take(c),
                first + c,
                blocks[c]@.take(i),
            );
            let whole = storage_history_rows(plain0, blocks, first);
            &&& pre.len() + rows.len() <= whole.len()
            &&& whole.subrange(pre.len() as int, (pre.len() + rows.len()) as int) == rows
            &&& keys_ascending(m)
            &&& forall|k: nat| has_key(m, k) <==> (has_key(held, k) || has_key(r.storage@, k))
            &&& forall|e: StorageEntry| has_entry(m, e) ==> (has_entry(r.storage@, e) || (has_entry(held, e) && !has_key(r.storage@, e.key@)))
            &&& forall|e: StorageEntry| has_entry(r.storage@, e) ==> has_entry(m, e)
            &&& forall|e: StorageEntry| has_entry(held, e) && !has_key(r.storage@, e.key@) ==> has_entry(m, e)
        }),
{
    let r = blocks[c]@[i];
    let recs = blocks[c]@;
    let held = slots_of(plain0, r.address);
    lemma_slots_of_ascending(plain0, r.address);
    lemma_merge_spec(held, r.storage@);
    let rows = storage_rows(first + c, r.address, merge_spec(held, r.storage@));
    let h = storage_history_rows(plain0, blocks.take(c), first);
    let bi = block_history_rows(plain0, blocks.take(c), first + c, recs.take(i));
    let bi1 = block_history_rows(plain0, blocks.take(c), first + c, recs.take(i + 1));
    assert(recs.take(i + 1).drop_last() == recs.take(i));
    assert(recs.take(i + 1).last() == r);
    assert(bi1 == bi + rows);
    lemma_block_rows_prefix(plain0, blocks.take(c), first + c, recs, i + 1);
    let ball = block_history_rows(plain0, blocks.take(c), first + c, recs);
    let h1 = storage_history_rows(plain0, blocks.take(c + 1), first);
    assert(blocks.take(c + 1).drop_last() == blocks.take(c));
    assert(blocks.take(c + 1).last() == blocks[c]);
    assert(h1 == h + ball);
    lemma_history_rows_prefix(plain0, blocks, first, c + 1);
    let whole = storage_history_rows(plain0, blocks, first);
    assert(is_prefix(h + bi1, h1)) by {
        assert(h1.subrange(0, (h + bi1).len() as int) == h + ball.subrange(0, bi1.len() as int));
    }
    lemma_prefix_trans(h + bi1, h1, whole);
    assert(h + bi1 == (h + bi) + rows);
    assert(whole.subrange((h + bi).len() as int, ((h + bi).len() + rows.len()) as int) == ((h + bi) + rows).subrange((h + bi).len() as int, ((h + bi).len() + rows.len()) as int));
}

} // verus!
