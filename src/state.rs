//! Per-address and per-slot deltas of the aggregated range, as flat vectors
//! whose meaning is a map from key to the last entry with that key.
use vstd::prelude::*;
use crate::types::{Account, AccountStatus, Address, StorageEntry, U256};

verus! {

/// An account touched within the range: its value before the range, its
/// present value (`None`: known not to exist) and its status.
#[derive(Clone, Copy, Debug, PartialEq, Eq, Structural)]
pub struct BundleAccount {
    pub address: Address,
    pub original_info: Option<Account>,
    pub info: Option<Account>,
    pub status: AccountStatus,
}

/// A storage slot touched within the range: its value before the range and
/// its present value.
#[derive(Clone, Copy, Debug, PartialEq, Eq, Structural)]
pub struct StorageSlot {
    pub address: Address,
    pub key: U256,
    pub original_value: U256,
    pub present_value: U256,
}

/// How to restore an account's fields when a block is undone.
#[derive(Clone, Copy, Debug, PartialEq, Eq, Structural)]
pub enum AccountInfoRevert {
    DoNothing,
    DeleteIt,
    RevertTo(Account),
}

/// What one block changed of one address, as the values before that block.
#[derive(Debug)]
pub struct AccountRevert {
    pub address: Address,
    pub account: AccountInfoRevert,
    /// Slots and their values before the block, ascending by key.
    pub storage: Vec<StorageEntry>,
    /// The block destroyed the account's persisted storage.
    pub wipe_storage: bool,
    pub previous_status: AccountStatus,
}

/// The map that a sequence of accounts stands for: the last entry of each address.
pub open spec fn account_map(s: Seq<BundleAccount>) -> Map<Address, BundleAccount>
    decreases s.len(),
{
    if s.len() == 0 {
        Map::empty()
    } else {
        account_map(s.drop_last()).insert(s.last().address, s.last())
    }
}

/// The map that a sequence of slots stands for: the last entry of each (address, key).
pub open spec fn slot_map(s: Seq<StorageSlot>) -> Map<(Address, U256), StorageSlot>
    decreases s.len(),
{
    if s.len() == 0 {
        Map::empty()
    } else {
        slot_map(s.drop_last()).insert((s.last().address, s.last().key), s.last())
    }
}

pub proof fn lemma_account_map_absent(s: Seq<BundleAccount>, a: Address)
    requires
        forall|j: int| 0 <= j < s.len() ==> #[trigger] s[j].address != a,
    ensures
        !account_map(s).contains_key(a),
    decreases s.len(),
{
    if s.len() > 0 {
        lemma_account_map_absent(s.drop_last(), a);
    }
}

pub proof fn lemma_account_map_last(s: Seq<BundleAccount>, i: int)
    requires
        0 <= i < s.len(),
        forall|j: int| i < j < s.len() ==> #[trigger] s[j].address != s[i].address,
    ensures
        account_map(s).contains_key(s[i].address),
        account_map(s)[s[i].address] == s[i],
    decreases s.len(),
{
    if i < s.len() - 1 {
        assert(s.drop_last()[i] == s[i]);
        lemma_account_map_last(s.drop_last(), i);
    }
}

pub proof fn lemma_account_map_update(s: Seq<BundleAccount>, i: int, x: BundleAccount)
    requires
        0 <= i < s.len(),
        x.address == s[i].address,
        forall|j: int| i < j < s.len() ==> #[trigger] s[j].address != s[i].address,
    ensures
        account_map(s.update(i, x)) == account_map(s).insert(x.address, x),
    decreases s.len(),
{
    let t = s.update(i, x);
    if i == s.len() - 1 {
        assert(t.drop_last() == s.drop_last());
    } else {
        assert(t.drop_last() == s.drop_last().update(i, x));
        lemma_account_map_update(s.drop_last(), i, x);
    }
    assert(account_map(t) =~= account_map(s).insert(x.address, x));
}

pub proof fn lemma_account_map_push(s: Seq<BundleAccount>, x: BundleAccount)
    ensures
        account_map(s.push(x)) == account_map(s).insert(x.address, x),
{
    assert(s.push(x).drop_last() == s);
}

pub proof fn lemma_slot_map_absent(s: Seq<StorageSlot>, a: Address, k: U256)
    requires
        forall|j: int| 0 <= j < s.len() ==> !(#[trigger] s[j].address == a && s[j].key == k),
    ensures
        !slot_map(s).contains_key((a, k)),
    decreases s.len(),
{
    if s.len() > 0 {
        lemma_slot_map_absent(s.drop_last(), a, k);
    }
}

pub proof fn lemma_slot_map_last(s: Seq<StorageSlot>, i: int)
    requires
        0 <= i < s.len(),
        forall|j: int| i < j < s.len() ==> !(#[trigger] s[j].address == s[i].address && s[j].key == s[i].key),
    ensures
        slot_map(s).contains_key((s[i].address, s[i].key)),
        slot_map(s)[(s[i].address, s[i].key)] == s[i],
    decreases s.len(),
{
    if i < s.len() - 1 {
        assert(s.drop_last()[i] == s[i]);
        lemma_slot_map_last(s.drop_last(), i);
    }
}

pub proof fn lemma_slot_map_update(s: Seq<StorageSlot>, i: int, x: StorageSlot)
    requires
        0 <= i < s.len(),
        x.address == s[i].address,
        x.key == s[i].key,
        forall|j: int| i < j < s.len() ==> !(#[trigger] s[j].address == s[i].address && s[j].key == s[i].key),
    ensures
        slot_map(s.update(i, x)) == slot_map(s).insert((x.address, x.key), x),
    decreases s.len(),
{
    let t = s.update(i, x);
    if i == s.len() - 1 {
        assert(t.drop_last() == s.drop_last());
    } else {
        assert(t.drop_last() == s.drop_last().update(i, x));
        lemma_slot_map_update(s.drop_last(), i, x);
    }
    assert(slot_map(t) =~= slot_map(s).insert((x.address, x.key), x));
}

pub proof fn lemma_slot_map_push(s: Seq<StorageSlot>, x: StorageSlot)
    ensures
        slot_map(s.push(x)) == slot_map(s).insert((x.address, x.key), x),
{
    assert(s.push(x).drop_last() == s);
}

/// Index of the last account entry of an address.
pub fn find_account(s: &Vec<BundleAccount>, a: &Address) -> (r: Option<usize>)
    ensures
        r is None ==> !account_map(s@).contains_key(*a),
        r matches Some(i) ==> i < s@.len() && s@[i as int].address == *a
            && account_map(s@).contains_key(*a) && account_map(s@)[*a] == s@[i as int]
            && forall|j: int| i < j < s@.len() ==> #[trigger] s@[j].address != *a,
{
    let mut i: usize = s.len();
    while i > 0
        invariant
            i <= s@.len(),
            forall|j: int| i <= j < s@.len() ==> #[trigger] s@[j].address != *a,
        decreases i,
    {
        i = i - 1;
        if s[i].address == *a {
            proof {
                lemma_account_map_last(s@, i as int);
            }
            return Some(i);
        }
    }
    proof {
        lemma_account_map_absent(s@, *a);
    }
    None
}

/// Index of the last slot entry of an (address, key).
pub fn find_slot(s: &Vec<StorageSlot>, a: &Address, k: &U256) -> (r: Option<usize>)
    ensures
        r is None ==> !slot_map(s@).contains_key((*a, *k)),
        r matches Some(i) ==> i < s@.len() && s@[i as int].address == *a && s@[i as int].key == *k
            && slot_map(s@).contains_key((*a, *k)) && slot_map(s@)[(*a, *k)] == s@[i as int]
            && forall|j: int| i < j < s@.len() ==> !(#[trigger] s@[j].address == *a && s@[j].key == *k),
{
    let mut i: usize = s.len();
    while i > 0
        invariant
            i <= s@.len(),
            forall|j: int| i <= j < s@.len() ==> !(#[trigger] s@[j].address == *a && s@[j].key == *k),
        decreases i,
    {
        i = i - 1;
        if s[i].address == *a && s[i].key == *k {
            proof {
                lemma_slot_map_last(s@, i as int);
            }
            return Some(i);
        }
    }
    proof {
        lemma_slot_map_absent(s@, *a, *k);
    }
    None
}

} // verus!

verus! {

/// An account entry after undoing a block: fields `info` and status `prev`,
/// and, when the address was not tracked yet, `info` as its original too.
pub open spec fn restored_account(
    m: Map<Address, BundleAccount>,
    a: Address,
    info: Option<Account>,
    prev: AccountStatus,
) -> BundleAccount {
    if m.contains_key(a) {
        BundleAccount { address: a, original_info: m[a].original_info, info, status: prev }
    } else {
        BundleAccount { address: a, original_info: info, info, status: prev }
    }
}

/// The accounts after undoing one block's record of an address.
pub open spec fn undo_account_info(
    m: Map<Address, BundleAccount>,
    a: Address,
    rev: AccountInfoRevert,
    prev: AccountStatus,
) -> Map<Address, BundleAccount> {
    match rev {
        AccountInfoRevert::DoNothing => if m.contains_key(a) {
            m.insert(a, restored_account(m, a, m[a].info, prev))
        } else {
            m
        },
        AccountInfoRevert::DeleteIt => m.insert(a, restored_account(m, a, None, prev)),
        AccountInfoRevert::RevertTo(info) => m.insert(a, restored_account(m, a, Some(info), prev)),
    }
}

/// A slot entry whose present value goes back to `v`; a slot not tracked yet
/// gets `v` as its original too.
pub open spec fn restored_slot(m: Map<(Address, U256), StorageSlot>, a: Address, k: U256, v: U256) -> StorageSlot {
    if m.contains_key((a, k)) {
        StorageSlot { address: a, key: k, original_value: m[(a, k)].original_value, present_value: v }
    } else {
        StorageSlot { address: a, key: k, original_value: v, present_value: v }
    }
}

/// The slots after restoring the prior values `s` of address `a`, in order.
pub open spec fn undo_slots(
    m: Map<(Address, U256), StorageSlot>,
    a: Address,
    s: Seq<StorageEntry>,
) -> Map<(Address, U256), StorageSlot>
    decreases s.len(),
{
    if s.len() == 0 {
        m
    } else {
        let m1 = undo_slots(m, a, s.drop_last());
        m1.insert((a, s.last().key), restored_slot(m1, a, s.last().key, s.last().value))
    }
}

/// Accounts and slots as maps.
pub type StateMaps = (Map<Address, BundleAccount>, Map<(Address, U256), StorageSlot>);

/// The state after undoing one address's record.
pub open spec fn undo_record(m: StateMaps, r: AccountRevert) -> StateMaps {
    (
        undo_account_info(m.0, r.address, r.account, r.previous_status),
        undo_slots(m.1, r.address, r.storage@),
    )
}

/// The state after undoing a block's records, in order.
pub open spec fn undo_records(m: StateMaps, recs: Seq<AccountRevert>) -> StateMaps
    decreases recs.len(),
{
    if recs.len() == 0 {
        m
    } else {
        undo_record(undo_records(m, recs.drop_last()), recs.last())
    }
}

/// The state after undoing a run of blocks, the most recent first.
pub open spec fn undo_blocks(m: StateMaps, blocks: Seq<Vec<AccountRevert>>) -> StateMaps
    decreases blocks.len(),
{
    if blocks.len() == 0 {
        m
    } else {
        undo_blocks(undo_records(m, blocks.last()@), blocks.drop_last())
    }
}

/// Undoes one address's record of one block.
pub fn undo_account(accounts: &mut Vec<BundleAccount>, storage: &mut Vec<StorageSlot>, r: &AccountRevert)
    ensures
        (account_map(final(accounts)@), slot_map(final(storage)@))
            == undo_record((account_map(old(accounts)@), slot_map(old(storage)@)), *r),
{
    let a = r.address;
    let ghost m0 = account_map(accounts@);
    let idx = find_account(accounts, &a);
    let info = match r.account {
        AccountInfoRevert::DoNothing => match idx {
            Some(i) => Some(accounts[i].info),
            None => None,
        },
        AccountInfoRevert::DeleteIt => Some(None),
        AccountInfoRevert::RevertTo(x) => Some(Some(x)),
    };
    if let Some(info) = info {
        match idx {
            Some(i) => {
                let acc = BundleAccount {
                    address: a,
                    original_info: accounts[i].original_info,
                    info,
                    status: r.previous_status,
                };
                proof {
                    lemma_account_map_update(accounts@, i as int, acc);
                }
                accounts.set(i, acc);
            },
            None => {
                let acc = BundleAccount { address: a, original_info: info, info, status: r.previous_status };
                proof {
                    lemma_account_map_push(accounts@, acc);
                }
                accounts.push(acc);
            },
        }
    }
    assert(account_map(accounts@) =~= undo_account_info(m0, a, r.account, r.previous_status));
    let ghost s0 = slot_map(storage@);
    let mut j: usize = 0;
    while j < r.storage.len()
        invariant
            j <= r.storage@.len(),
            r.address == a,
            slot_map(storage@) == undo_slots(s0, a, r.storage@.take(j as int)),
        decreases r.storage@.len() - j,
    {
        let e = r.storage[j];
        let ghost before = slot_map(storage@);
        match find_slot(storage, &a, &e.key) {
            Some(i) => {
                let slot = StorageSlot {
                    address: a,
                    key: e.key,
                    original_value: storage[i].original_value,
                    present_value: e.value,
                };
                proof {
                    lemma_slot_map_update(storage@, i as int, slot);
                }
                storage.set(i, slot);
            },
            None => {
                let slot = StorageSlot { address: a, key: e.key, original_value: e.value, present_value: e.value };
                proof {
                    lemma_slot_map_push(storage@, slot);
                }
                storage.push(slot);
            },
        }
        assert(r.storage@.take(j + 1).drop_last() == r.storage@.take(j as int));
        j = j + 1;
    }
    assert(r.storage@.take(j as int) == r.storage@);
}

/// Undoes every record of one block.
pub fn undo_block(accounts: &mut Vec<BundleAccount>, storage: &mut Vec<StorageSlot>, recs: &Vec<AccountRevert>)
    ensures
        (account_map(final(accounts)@), slot_map(final(storage)@))
            == undo_records((account_map(old(accounts)@), slot_map(old(storage)@)), recs@),
{
    let ghost m0 = (account_map(accounts@), slot_map(storage@));
    let mut i: usize = 0;
    while i < recs.len()
        invariant
            i <= recs@.len(),
            (account_map(accounts@), slot_map(storage@)) == undo_records(m0, recs@.take(i as int)),
        decreases recs@.len() - i,
    {
        undo_account(accounts, storage, &recs[i]);
        assert(recs@.take(i + 1).drop_last() == recs@.take(i as int));
        i = i + 1;
    }
    assert(recs@.take(i as int) == recs@);
}

/// Undoes the blocks `blocks[from..]`, the most recent first.
pub fn undo_blocks_from(
    accounts: &mut Vec<BundleAccount>,
    storage: &mut Vec<StorageSlot>,
    blocks: &Vec<Vec<AccountRevert>>,
    from: usize,
)
    requires
        from <= blocks@.len(),
    ensures
        (account_map(final(accounts)@), slot_map(final(storage)@)) == undo_blocks(
            (account_map(old(accounts)@), slot_map(old(storage)@)),
            blocks@.subrange(from as int, blocks@.len() as int),
        ),
{
    let ghost m0 = (account_map(accounts@), slot_map(storage@));
    let mut i: usize = blocks.len();
    while i > from
        invariant
            from <= i <= blocks@.len(),
            undo_blocks((account_map(accounts@), slot_map(storage@)), blocks@.subrange(from as int, i as int))
                == undo_blocks(m0, blocks@.subrange(from as int, blocks@.len() as int)),
        decreases i,
    {
        let ghost sub = blocks@.subrange(from as int, i as int);
        assert(sub.last() == blocks@[i - 1]);
        assert(sub.drop_last() == blocks@.subrange(from as int, i - 1));
        i = i - 1;
        undo_block(accounts, storage, &blocks[i]);
    }
}

} // verus!

verus! {

/// An account entry of a later run laid over this one: the later fields and
/// status, this run's original.
pub open spec fn merged_account(m: Map<Address, BundleAccount>, o: BundleAccount) -> BundleAccount {
    if m.contains_key(o.address) {
        BundleAccount {
            address: o.address,
            original_info: m[o.address].original_info,
            info: o.info,
            status: o.status,
        }
    } else {
        o
    }
}

/// The accounts after laying the later entries `s` over them, in order.
pub open spec fn extend_accounts(m: Map<Address, BundleAccount>, s: Seq<BundleAccount>) -> Map<Address, BundleAccount>
    decreases s.len(),
{
    if s.len() == 0 {
        m
    } else {
        let m1 = extend_accounts(m, s.drop_last());
        m1.insert(s.last().address, merged_account(m1, s.last()))
    }
}

/// A slot entry of a later run laid over this one: the later present value,
/// this run's original.
pub open spec fn merged_slot(m: Map<(Address, U256), StorageSlot>, o: StorageSlot) -> StorageSlot {
    if m.contains_key((o.address, o.key)) {
        StorageSlot {
            address: o.address,
            key: o.key,
            original_value: m[(o.address, o.key)].original_value,
            present_value: o.present_value,
        }
    } else {
        o
    }
}

/// The slots after laying the later entries `s` over them, in order.
pub open spec fn extend_slots(m: Map<(Address, U256), StorageSlot>, s: Seq<StorageSlot>) -> Map<(Address, U256), StorageSlot>
    decreases s.len(),
{
    if s.len() == 0 {
        m
    } else {
        let m1 = extend_slots(m, s.drop_last());
        m1.insert((s.last().address, s.last().key), merged_slot(m1, s.last()))
    }
}

/// A slot whose account a later run destroyed holds zero.
pub open spec fn wipe_slot(x: StorageSlot, later: Map<Address, BundleAccount>) -> StorageSlot {
    if later.contains_key(x.address) && later[x.address].status.destroyed() {
        StorageSlot { present_value: U256 { hi: 0, lo: 0 }, ..x }
    } else {
        x
    }
}

/// The slots with those of accounts that a later run destroyed set to zero.
pub open spec fn wiped_slots(m: Map<(Address, U256), StorageSlot>, later: Map<Address, BundleAccount>) -> Map<(Address, U256), StorageSlot> {
    Map::new(
        |k: (Address, U256)| m.contains_key(k),
        |k: (Address, U256)| if later.contains_key(k.0) && later[k.0].status.destroyed() {
            StorageSlot { present_value: U256 { hi: 0, lo: 0 }, ..m[k] }
        } else {
            m[k]
        },
    )
}

proof fn lemma_slot_map_wipe(s: Seq<StorageSlot>, t: Seq<StorageSlot>, later: Map<Address, BundleAccount>)
    requires
        s.len() == t.len(),
        forall|j: int| 0 <= j < s.len() ==> #[trigger] t[j] == wipe_slot(s[j], later),
    ensures
        slot_map(t) == wiped_slots(slot_map(s), later),
    decreases s.len(),
{
    if s.len() > 0 {
        lemma_slot_map_wipe(s.drop_last(), t.drop_last(), later);
        assert(t.last() == wipe_slot(s.last(), later));
    }
    assert(slot_map(t) =~= wiped_slots(slot_map(s), later));
}

/// Lays the later accounts `other` over `accounts`.
pub fn extend_account_entries(accounts: &mut Vec<BundleAccount>, other: &Vec<BundleAccount>)
    ensures
        account_map(final(accounts)@) == extend_accounts(account_map(old(accounts)@), other@),
{
    let ghost m0 = account_map(accounts@);
    let mut i: usize = 0;
    while i < other.len()
        invariant
            i <= other@.len(),
            account_map(accounts@) == extend_accounts(m0, other@.take(i as int)),
        decreases other@.len() - i,
    {
        let o = other[i];
        match find_account(accounts, &o.address) {
            Some(p) => {
                let acc = BundleAccount {
                    address: o.address,
                    original_info: accounts[p].original_info,
                    info: o.info,
                    status: o.status,
                };
                proof {
                    lemma_account_map_update(accounts@, p as int, acc);
                }
                accounts.set(p, acc);
            },
            None => {
                proof {
                    lemma_account_map_push(accounts@, o);
                }
                accounts.push(o);
            },
        }
        assert(other@.take(i + 1).drop_last() == other@.take(i as int));
        i = i + 1;
    }
    assert(other@.take(i as int) == other@);
}

/// Sets to zero the slots of the accounts that the later run destroyed.
pub fn wipe_destroyed(storage: &mut Vec<StorageSlot>, later: &Vec<BundleAccount>)
    ensures
        slot_map(final(storage)@) == wiped_slots(slot_map(old(storage)@), account_map(later@)),
{
    let ghost s0 = storage@;
    let ghost lm = account_map(later@);
    let mut i: usize = 0;
    while i < storage.len()
        invariant
            i <= storage@.len(),
            storage@.len() == s0.len(),
            lm == account_map(later@),
            forall|j: int| 0 <= j < i ==> #[trigger] storage@[j] == wipe_slot(s0[j], lm),
            forall|j: int| i <= j < s0.len() ==> #[trigger] storage@[j] == s0[j],
        decreases s0.len() - i,
    {
        let x = storage[i];
        match find_account(later, &x.address) {
            Some(p) => {
                if later[p].status.was_destroyed() {
                    storage.set(i, StorageSlot { present_value: U256::zero(), ..x });
                }
            },
            None => {},
        }
        i = i + 1;
    }
    proof {
        lemma_slot_map_wipe(s0, storage@, lm);
    }
}

/// Lays the later slots `other` over `storage`.
pub fn extend_slot_entries(storage: &mut Vec<StorageSlot>, other: &Vec<StorageSlot>)
    ensures
        slot_map(final(storage)@) == extend_slots(slot_map(old(storage)@), other@),
{
    let ghost m0 = slot_map(storage@);
    let mut i: usize = 0;
    while i < other.len()
        invariant
            i <= other@.len(),
            slot_map(storage@) == extend_slots(m0, other@.take(i as int)),
        decreases other@.len() - i,
    {
        let o = other[i];
        match find_slot(storage, &o.address, &o.key) {
            Some(p) => {
                let slot = StorageSlot {
                    address: o.address,
                    key: o.key,
                    original_value: storage[p].original_value,
                    present_value: o.present_value,
                };
                proof {
                    lemma_slot_map_update(storage@, p as int, slot);
                }
                storage.set(p, slot);
            },
            None => {
                proof {
                    lemma_slot_map_push(storage@, o);
                }
                storage.push(o);
            },
        }
        assert(other@.take(i + 1).drop_last() == other@.take(i as int));
        i = i + 1;
    }
    assert(other@.take(i as int) == other@);
}

} // verus!

verus! {

/// No later entry has the same address as entry `j`.
pub open spec fn is_last_account(s: Seq<BundleAccount>, j: int) -> bool {
    forall|k: int| j < k < s.len() ==> #[trigger] s[k].address != s[j].address
}

/// No later entry has the same address and key as entry `j`.
pub open spec fn is_last_slot(s: Seq<StorageSlot>, j: int) -> bool {
    forall|k: int| j < k < s.len() ==> !(#[trigger] s[k].address == s[j].address && s[k].key == s[j].key)
}

/// A tracked address has a last entry, and that entry is its value.
pub proof fn lemma_account_map_contains(s: Seq<BundleAccount>, a: Address)
    ensures
        account_map(s).contains_key(a) ==> exists|j: int|
            0 <= j < s.len() && #[trigger] s[j].address == a && is_last_account(s, j) && s[j] == account_map(s)[a],
        !account_map(s).contains_key(a) ==> forall|j: int| 0 <= j < s.len() ==> #[trigger] s[j].address != a,
    decreases s.len(),
{
    if s.len() > 0 {
        let t = s.drop_last();
        lemma_account_map_contains(t, a);
        if s.last().address == a {
            assert(s[s.len() - 1].address == a);
        } else if account_map(s).contains_key(a) {
            let j = choose|j: int| 0 <= j < t.len() && #[trigger] t[j].address == a && is_last_account(t, j) && t[j] == account_map(t)[a];
            assert(s[j] == t[j]);
            assert forall|k: int| j < k < s.len() implies #[trigger] s[k].address != s[j].address by {
                if k < t.len() {
                    assert(s[k] == t[k]);
                }
            }
        } else {
            assert forall|j: int| 0 <= j < s.len() implies #[trigger] s[j].address != a by {
                if j < t.len() {
                    assert(s[j] == t[j]);
                }
            }
        }
    }
}

/// A tracked slot has a last entry, and that entry is its value.
pub proof fn lemma_slot_map_contains(s: Seq<StorageSlot>, a: Address, k: U256)
    ensures
        slot_map(s).contains_key((a, k)) ==> exists|j: int|
            0 <= j < s.len() && #[trigger] s[j].address == a && s[j].key == k && is_last_slot(s, j)
                && s[j] == slot_map(s)[(a, k)],
        !slot_map(s).contains_key((a, k)) ==> forall|j: int| 0 <= j < s.len() ==> !(#[trigger] s[j].address == a && s[j].key == k),
    decreases s.len(),
{
    if s.len() > 0 {
        let t = s.drop_last();
        lemma_slot_map_contains(t, a, k);
        if s.last().address == a && s.last().key == k {
            assert(s[s.len() - 1].address == a);
        } else if slot_map(s).contains_key((a, k)) {
            let j = choose|j: int| 0 <= j < t.len() && #[trigger] t[j].address == a && t[j].key == k && is_last_slot(t, j)
                && t[j] == slot_map(t)[(a, k)];
            assert(s[j] == t[j]);
            assert forall|q: int| j < q < s.len() implies !(#[trigger] s[q].address == s[j].address && s[q].key == s[j].key) by {
                if q < t.len() {
                    assert(s[q] == t[q]);
                }
            }
        } else {
            assert forall|j: int| 0 <= j < s.len() implies !(#[trigger] s[j].address == a && s[j].key == k) by {
                if j < t.len() {
                    assert(s[j] == t[j]);
                }
            }
        }
    }
}

} // verus!

verus! {

/// A copy of a vector of plain entries.
pub fn copy_entries<T: Copy>(v: &Vec<T>) -> (r: Vec<T>)
    ensures
        r@ == v@,
{
    let mut out: Vec<T> = Vec::new();
    let mut i: usize = 0;
    while i < v.len()
        invariant
            i <= v@.len(),
            out@ == v@.take(i as int),
        decreases v@.len() - i,
    {
        out.push(v[i]);
        assert(v@.take(i + 1) == v@.take(i as int).push(v@[i as int]));
        i = i + 1;
    }
    assert(v@.take(i as int) == v@);
    out
}

} // verus!
