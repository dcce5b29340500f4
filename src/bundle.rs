//! The aggregator: deltas of a contiguous run of blocks, with its revert,
//! detach and extend algebra.
use vstd::prelude::*;
use crate::types::{Account, AccountStatus, Address, BlockNumber, Bytecode, H256, Log, Receipt, StorageEntry, U256, keys_ascending};
use crate::state::{
    AccountInfoRevert, AccountRevert, BundleAccount, StateMaps, StorageSlot, account_map, extend_account_entries, extend_accounts,
    extend_slot_entries, extend_slots, copy_entries, find_account, find_slot, slot_map, undo_blocks, undo_blocks_from,
    wipe_destroyed, wiped_slots, is_last_account, is_last_slot, lemma_account_map_contains, lemma_slot_map_contains,
};
use crate::change::{StateChange, has_code, last_account_write, last_code, last_slot_write, lemma_last_code_same, stores_code};
use crate::store::{PlainSlot, Store};
use crate::journal::{StateReverts, wipes_in, account_rows, no_wiped_slots, recorded_storage_rows, storage_history_rows, wipes_address};

verus! {

/// Accumulated changes of the blocks `[first_block, first_block + len)`.
#[derive(Debug)]
pub struct BundleState {
    /// Touched accounts; the last entry of an address counts.
    pub accounts: Vec<BundleAccount>,
    /// Touched slots; the last entry of an (address, key) counts.
    pub storage: Vec<StorageSlot>,
    /// Code created within the range.
    pub contracts: Vec<(H256, Bytecode)>,
    /// One revert record list per block of the range.
    pub reverts: Vec<Vec<AccountRevert>>,
    /// One receipt list per block of the range.
    pub receipts: Vec<Vec<Receipt>>,
    pub first_block: BlockNumber,
}

/// The block's logs: those of its receipts, in order.
pub open spec fn logs_of(rs: Seq<Receipt>) -> Seq<Log> {
    rs.map_values(|r: Receipt| r.logs@).flatten_alt()
}

impl BundleState {
    /// One revert list per block, the range's end fits in a block number, and
    /// every storage revert record ascends by key.
    pub open spec fn wf(&self) -> bool {
        &&& self.reverts@.len() == self.receipts@.len()
        &&& self.first_block + self.receipts@.len() <= u64::MAX
        &&& forall|b: int, i: int|
            0 <= b < self.reverts@.len() && 0 <= i < self.reverts@[b]@.len()
                ==> keys_ascending(#[trigger] self.reverts@[b]@[i].storage@)
    }

    /// Accounts and slots as maps.
    pub open spec fn maps(&self) -> StateMaps {
        (account_map(self.accounts@), slot_map(self.storage@))
    }

    pub open spec fn spec_len(&self) -> nat {
        self.receipts@.len()
    }

    pub open spec fn spec_last_block(&self) -> int {
        self.first_block + self.receipts@.len()
    }

    /// Index of a block within the range.
    pub open spec fn spec_index_of(&self, block_number: BlockNumber) -> Option<nat> {
        if self.first_block <= block_number < self.spec_last_block() {
            Some((block_number - self.first_block) as nat)
        } else {
            None
        }
    }

    /// Builds the aggregator from its parts.
    pub fn new(
        accounts: Vec<BundleAccount>,
        storage: Vec<StorageSlot>,
        contracts: Vec<(H256, Bytecode)>,
        reverts: Vec<Vec<AccountRevert>>,
        receipts: Vec<Vec<Receipt>>,
        first_block: BlockNumber,
    ) -> (r: Self)
        ensures
            r == (BundleState { accounts, storage, contracts, reverts, receipts, first_block }),
    {
        BundleState { accounts, storage, contracts, reverts, receipts, first_block }
    }

    /// The tracked accounts, as entries are kept.
    pub fn state(&self) -> (r: &Vec<BundleAccount>)
        ensures
            r == &self.accounts,
    {
        &self.accounts
    }

    /// Number of blocks in the range.
    pub fn len(&self) -> (r: usize)
        ensures
            r == self.spec_len(),
    {
        self.receipts.len()
    }

    /// First block of the range.
    pub fn first_block(&self) -> (r: BlockNumber)
        ensures
            r == self.first_block,
    {
        self.first_block
    }

    /// The block after the range.
    pub fn last_block(&self) -> (r: BlockNumber)
        requires
            self.first_block + self.receipts@.len() <= u64::MAX,
        ensures
            r == self.spec_last_block(),
    {
        self.first_block + self.receipts.len() as u64
    }

    /// Index of a block within the range, `None` outside it.
    pub fn index_of(&self, block_number: BlockNumber) -> (r: Option<usize>)
        ensures
            r matches Some(i) ==> self.spec_index_of(block_number) == Some(i as nat),
            r is None ==> self.spec_index_of(block_number) is None,
    {
        if self.first_block > block_number {
            return None;
        }
        let index = block_number - self.first_block;
        if index >= self.receipts.len() as u64 {
            return None;
        }
        Some(index as usize)
    }

    /// All receipts, one list per block.
    pub fn receipts(&self) -> (r: &Vec<Vec<Receipt>>)
        ensures
            r == &self.receipts,
    {
        &self.receipts
    }

    /// The receipts of one block; empty outside the range.
    pub fn receipts_by_block(&self, block_number: BlockNumber) -> (r: &[Receipt])
        ensures
            self.spec_index_of(block_number) matches Some(i) ==> r@ == self.receipts@[i as int]@,
            self.spec_index_of(block_number) is None ==> r@.len() == 0,
    {
        match self.index_of(block_number) {
            Some(index) => self.receipts[index].as_slice(),
            None => &[],
        }
    }

    /// The logs of one block, in receipt order; `None` outside the range.
    pub fn logs(&self, block_number: BlockNumber) -> (r: Option<Vec<&Log>>)
        ensures
            self.spec_index_of(block_number) matches Some(i) ==> r matches Some(v) && v@.map_values(|l: &Log| *l) == logs_of(
                self.receipts@[i as int]@,
            ),
            self.spec_index_of(block_number) is None ==> r is None,
    {
        let index = self.index_of(block_number)?;
        let block = &self.receipts[index];
        let ghost rs = block@;
        let mut out: Vec<&Log> = Vec::new();
        let mut i: usize = 0;
        while i < block.len()
            invariant
                rs == block@,
                i <= rs.len(),
                out@.map_values(|l: &Log| *l) == logs_of(rs.take(i as int)),
            decreases rs.len() - i,
        {
            let logs = &block[i].logs;
            let ghost before = out@.map_values(|l: &Log| *l);
            let mut j: usize = 0;
            while j < logs.len()
                invariant
                    j <= logs@.len(),
                    out@.map_values(|l: &Log| *l) == before + logs@.take(j as int),
                decreases logs@.len() - j,
            {
                let ghost prev = out@;
                out.push(&logs[j]);
                assert(out@.map_values(|l: &Log| *l) == prev.map_values(|l: &Log| *l).push(logs@[j as int]));
                assert(logs@.take(j + 1) == logs@.take(j as int).push(logs@[j as int]));
                j = j + 1;
            }
            proof {
                assert(logs@.take(j as int) == logs@);
                let m = rs.take(i + 1).map_values(|r: Receipt| r.logs@);
                assert(m.drop_last() == rs.take(i as int).map_values(|r: Receipt| r.logs@));
                assert(m.last() == logs@);
            }
            i = i + 1;
        }
        assert(rs.take(i as int) == rs);
        Some(out)
    }

    /// The account's present value if known: `Some(None)` when it is known
    /// not to exist.
    pub fn account(&self, address: &Address) -> (r: Option<Option<Account>>)
        ensures
            account_map(self.accounts@).contains_key(*address) ==> r == Some(account_map(self.accounts@)[*address].info),
            !account_map(self.accounts@).contains_key(*address) ==> r is None,
    {
        match find_account(&self.accounts, address) {
            Some(i) => Some(self.accounts[i].info),
            None => None,
        }
    }

    /// The slot's present value if known; it may be zero.
    pub fn storage(&self, address: &Address, storage_key: U256) -> (r: Option<U256>)
        ensures
            slot_map(self.storage@).contains_key((*address, storage_key)) ==> r == Some(
                slot_map(self.storage@)[(*address, storage_key)].present_value,
            ),
            !slot_map(self.storage@).contains_key((*address, storage_key)) ==> r is None,
    {
        match find_slot(&self.storage, address, &storage_key) {
            Some(i) => Some(self.storage[i].present_value),
            None => None,
        }
    }

    /// The code with this hash, if the range created it (its first entry).
    pub fn bytecode(&self, code_hash: &H256) -> (r: Option<Bytecode>)
        ensures
            r is None <==> forall|i: int| 0 <= i < self.contracts@.len() ==> #[trigger] self.contracts@[i].0 != *code_hash,
            r matches Some(b) ==> exists|i: int|
                0 <= i < self.contracts@.len() && #[trigger] self.contracts@[i].0 == *code_hash
                    && b.0@ == self.contracts@[i].1.0@
                    && forall|j: int| 0 <= j < i ==> #[trigger] self.contracts@[j].0 != *code_hash,
    {
        let mut i: usize = 0;
        while i < self.contracts.len()
            invariant
                i <= self.contracts@.len(),
                forall|j: int| 0 <= j < i ==> #[trigger] self.contracts@[j].0 != *code_hash,
            decreases self.contracts@.len() - i,
        {
            if self.contracts[i].0 == *code_hash {
                return Some(self.contracts[i].1.duplicate());
            }
            i = i + 1;
        }
        None
    }

    /// Every tracked account once, with its present value.
    pub fn accounts_iter(&self) -> (r: Vec<(Address, Option<Account>)>)
        ensures
            forall|e: (Address, Option<Account>)| #[trigger] r@.contains(e) <==> (account_map(self.accounts@).contains_key(e.0)
                && e.1 == account_map(self.accounts@)[e.0].info),
            forall|p: int, q: int| 0 <= p < q < r@.len() ==> #[trigger] r@[p].0 != #[trigger] r@[q].0,
    {
        let s = &self.accounts;
        let mut out: Vec<(Address, Option<Account>)> = Vec::new();
        let mut i: usize = 0;
        while i < s.len()
            invariant
                i <= s@.len(),
                forall|p: int| 0 <= p < out@.len() ==> listed_last(s@, #[trigger] out@[p], i as int),
                forall|j: int| 0 <= j < i && is_last_account(s@, j) ==> out@.contains((#[trigger] s@[j].address, s@[j].info)),
                forall|p: int, q: int| 0 <= p < q < out@.len() ==> #[trigger] out@[p].0 != #[trigger] out@[q].0,
            decreases s@.len() - i,
        {
            let x = s[i];
            let found = find_account(s, &x.address);
            proof {
                lemma_account_map_contains(s@, x.address);
                if let Some(p) = found {
                    if p != i {
                        assert(s@[p as int].address == s@[i as int].address);
                    }
                }
            }
            let last = match found {
                Some(p) => p == i,
                None => false,
            };
            assert(last == is_last_account(s@, i as int));
            let ghost o = out@;
            if last {
                out.push((x.address, x.info));
                proof {
                    assert forall|p: int| 0 <= p < o.len() implies #[trigger] o[p].0 != x.address by {
                        assert(listed_last(s@, o[p], i as int));
                        let j = choose|j: int| 0 <= j < i && is_last_account(s@, j) && o[p] == (#[trigger] s@[j].address, s@[j].info);
                    }
                    assert forall|p: int, q: int| 0 <= p < q < out@.len() implies #[trigger] out@[p].0 != #[trigger] out@[q].0 by {
                        if q < o.len() {
                            assert(out@[p] == o[p] && out@[q] == o[q]);
                        } else {
                            assert(out@[p] == o[p]);
                        }
                    }
                    assert(out@[o.len() as int] == (s@[i as int].address, s@[i as int].info));
                    assert forall|j: int| 0 <= j < i + 1 && is_last_account(s@, j) implies out@.contains((#[trigger] s@[j].address, s@[j].info)) by {
                        if j < i {
                            let p = choose|p: int| 0 <= p < o.len() && o[p] == (s@[j].address, s@[j].info);
                            assert(out@[p] == o[p]);
                        } else {
                            assert(out@[o.len() as int] == (s@[j].address, s@[j].info));
                        }
                    }
                    assert forall|p: int| 0 <= p < out@.len() implies listed_last(s@, #[trigger] out@[p], i + 1) by {
                        if p < o.len() {
                            assert(out@[p] == o[p]);
                            lemma_listed_grow(s@, o[p], i as int);
                        } else {
                            assert(out@[p] == (s@[i as int].address, s@[i as int].info));
                        }
                    }
                }
            } else {
                proof {
                    assert forall|p: int| 0 <= p < out@.len() implies listed_last(s@, #[trigger] out@[p], i + 1) by {
                        lemma_listed_grow(s@, out@[p], i as int);
                    }
                }
            }
            i = i + 1;
        }
        proof {
            assert forall|e: (Address, Option<Account>)| #[trigger] out@.contains(e) <==> (account_map(s@).contains_key(e.0)
                && e.1 == account_map(s@)[e.0].info) by {
                if out@.contains(e) {
                    let p = choose|p: int| 0 <= p < out@.len() && out@[p] == e;
                    assert(listed_last(s@, out@[p], i as int));
                    let j = choose|j: int| 0 <= j < i && is_last_account(s@, j) && out@[p] == (#[trigger] s@[j].address, s@[j].info);
                    crate::state::lemma_account_map_last(s@, j);
                }
                if account_map(s@).contains_key(e.0) && e.1 == account_map(s@)[e.0].info {
                    lemma_account_map_contains(s@, e.0);
                    let j = choose|j: int| 0 <= j < s@.len() && #[trigger] s@[j].address == e.0 && is_last_account(s@, j) && s@[j] == account_map(s@)[e.0];
                    assert(out@.contains((s@[j].address, s@[j].info)));
                }
            }
        }
        out
    }

    /// Shrinks the range to end at `block_number` inclusive, undoing the later
    /// blocks, the most recent first. A block outside the range changes nothing.
    pub fn revert_to(&mut self, block_number: BlockNumber)
        requires
            old(self).wf(),
        ensures
            final(self).wf(),
            final(self).first_block == old(self).first_block,
            final(self).contracts == old(self).contracts,
            old(self).spec_index_of(block_number) is None ==> *final(self) == *old(self),
            old(self).spec_index_of(block_number) matches Some(i) ==> {
                &&& final(self).receipts@ == old(self).receipts@.take(i + 1int)
                &&& final(self).reverts@ == old(self).reverts@.take(i + 1int)
                &&& final(self).maps() == undo_blocks(
                    old(self).maps(),
                    old(self).reverts@.subrange(i + 1int, old(self).reverts@.len() as int),
                )
            },
    {
        let index = match self.index_of(block_number) {
            Some(index) => index,
            None => return,
        };
        let n = self.receipts.len();
        assert(index < n);
        let keep = index + 1;
        undo_blocks_from(&mut self.accounts, &mut self.storage, &self.reverts, keep);
        self.receipts.truncate(keep);
        self.reverts.truncate(keep);
        assert(self.reverts@ == old(self).reverts@.take(keep as int));
        assert(forall|b: int| 0 <= b < self.reverts@.len() ==> #[trigger] self.reverts@[b] == old(self).reverts@[b]);
    }

    /// An aggregator of no blocks.
    pub fn empty() -> (r: Self)
        ensures
            r.wf(),
            r.accounts@.len() == 0,
            r.storage@.len() == 0,
            r.contracts@.len() == 0,
            r.reverts@.len() == 0,
            r.receipts@.len() == 0,
            r.first_block == 0,
    {
        BundleState {
            accounts: Vec::new(),
            storage: Vec::new(),
            contracts: Vec::new(),
            reverts: Vec::new(),
            receipts: Vec::new(),
            first_block: 0,
        }
    }

    /// Splits the range after `block_number`. Returns `None` when the block
    /// is at or past the range's end; an empty aggregator, leaving `self` as it
    /// is, when the block is before the range. Otherwise returns the blocks up
    /// to `block_number` (its state is the present state with the later blocks
    /// undone) and keeps the later blocks in `self`.
    pub fn detach_lower_part_at(&mut self, block_number: BlockNumber) -> (r: Option<Self>)
        requires
            old(self).wf(),
        ensures
            final(self).wf(),
            block_number >= old(self).spec_last_block() ==> r is None && *final(self) == *old(self),
            block_number < old(self).first_block ==> {
                &&& *final(self) == *old(self)
                &&& r matches Some(e)
                &&& e.wf()
                &&& e.spec_len() == 0
                &&& e.accounts@.len() == 0
                &&& e.storage@.len() == 0
                &&& e.contracts@.len() == 0
            },
            old(self).first_block <= block_number < old(self).spec_last_block() ==> {
                let n = block_number - old(self).first_block + 1;
                let len = old(self).receipts@.len() as int;
                &&& r matches Some(d)
                &&& d.wf()
                &&& d.first_block == old(self).first_block
                &&& d.receipts@ == old(self).receipts@.take(n)
                &&& d.reverts@ == old(self).reverts@.take(n)
                &&& d.maps() == undo_blocks(old(self).maps(), old(self).reverts@.subrange(n, len))
                &&& d.contracts@.len() == old(self).contracts@.len()
                &&& forall|i: int| 0 <= i < d.contracts@.len() ==> #[trigger] d.contracts@[i].0 == old(
                    self,
                ).contracts@[i].0 && d.contracts@[i].1.0@ == old(self).contracts@[i].1.0@
                &&& final(self).first_block == block_number + 1
                &&& final(self).receipts@ == old(self).receipts@.subrange(n, len)
                &&& final(self).reverts@ == old(self).reverts@.subrange(n, len)
                &&& final(self).accounts == old(self).accounts
                &&& final(self).storage == old(self).storage
                &&& final(self).contracts == old(self).contracts
            },
    {
        let last_block = self.last_block();
        let first_block = self.first_block;
        if block_number >= last_block {
            return None;
        }
        if block_number < first_block {
            return Some(Self::empty());
        }
        let n = self.receipts.len();
        assert(block_number - first_block < n);
        let num = (block_number - first_block) as usize + 1;
        let mut accounts = copy_entries(&self.accounts);
        let mut storage = copy_entries(&self.storage);
        undo_blocks_from(&mut accounts, &mut storage, &self.reverts, num);
        let contracts = copy_contracts(&self.contracts);
        let mut lower_receipts = self.receipts.split_off(num);
        std::mem::swap(&mut self.receipts, &mut lower_receipts);
        let mut lower_reverts = self.reverts.split_off(num);
        std::mem::swap(&mut self.reverts, &mut lower_reverts);
        self.first_block = block_number + 1;
        let d = BundleState {
            accounts,
            storage,
            contracts,
            reverts: lower_reverts,
            receipts: lower_receipts,
            first_block,
        };
        assert(forall|b: int| 0 <= b < d.reverts@.len() ==> #[trigger] d.reverts@[b] == old(self).reverts@[b]);
        assert(forall|b: int| 0 <= b < self.reverts@.len() ==> #[trigger] self.reverts@[b] == old(self).reverts@[b + num]);
        Some(d)
    }

    /// Lays `other`, the blocks right after this range, over this one: its
    /// present values and statuses win, this range's originals stay, slots of
    /// accounts that `other` destroyed become zero, and its code, reverts and
    /// receipts follow this range's.
    pub fn extend(&mut self, other: Self)
        requires
            old(self).wf(),
            other.wf(),
            old(self).spec_last_block() + other.spec_len() <= u64::MAX,
        ensures
            final(self).wf(),
            final(self).first_block == old(self).first_block,
            final(self).receipts@ == old(self).receipts@ + other.receipts@,
            final(self).reverts@ == old(self).reverts@ + other.reverts@,
            final(self).contracts@ == old(self).contracts@ + other.contracts@,
            account_map(final(self).accounts@) == extend_accounts(account_map(old(self).accounts@), other.accounts@),
            slot_map(final(self).storage@) == extend_slots(
                wiped_slots(slot_map(old(self).storage@), account_map(other.accounts@)),
                other.storage@,
            ),
    {
        let BundleState { accounts, storage, mut contracts, mut reverts, mut receipts, first_block: _ } = other;
        extend_account_entries(&mut self.accounts, &accounts);
        wipe_destroyed(&mut self.storage, &accounts);
        extend_slot_entries(&mut self.storage, &storage);
        let ghost (r0, v0, c0) = (self.receipts@, self.reverts@, self.contracts@);
        let ghost (r1, v1, c1) = (receipts@, reverts@, contracts@);
        self.receipts.append(&mut receipts);
        self.reverts.append(&mut reverts);
        self.contracts.append(&mut contracts);
        assert(forall|b: int| 0 <= b < self.reverts@.len() ==> #[trigger] self.reverts@[b] == if b < v0.len() {
            v0[b]
        } else {
            v1[b - v0.len()]
        });
    }
}

/// A copy of the code table.
fn copy_contracts(v: &Vec<(H256, Bytecode)>) -> (r: Vec<(H256, Bytecode)>)
    ensures
        r@.len() == v@.len(),
        forall|i: int| 0 <= i < v@.len() ==> #[trigger] r@[i].0 == v@[i].0 && r@[i].1.0@ == v@[i].1.0@,
{
    let mut out: Vec<(H256, Bytecode)> = Vec::new();
    let mut i: usize = 0;
    while i < v.len()
        invariant
            i <= v@.len(),
            out@.len() == i,
            forall|j: int| 0 <= j < i ==> #[trigger] out@[j].0 == v@[j].0 && out@[j].1.0@ == v@[j].1.0@,
        decreases v@.len() - i,
    {
        out.push((v[i].0, v[i].1.duplicate()));
        i = i + 1;
    }
    out
}

/// The pair is the address and present value of a last entry before `n`.
pub open spec fn listed_last(s: Seq<BundleAccount>, e: (Address, Option<Account>), n: int) -> bool {
    exists|j: int| 0 <= j < n && is_last_account(s, j) && e == (#[trigger] s[j].address, s[j].info)
}

proof fn lemma_listed_grow(s: Seq<BundleAccount>, e: (Address, Option<Account>), n: int)
    requires
        listed_last(s, e, n),
    ensures
        listed_last(s, e, n + 1),
{
    let j = choose|j: int| 0 <= j < n && is_last_account(s, j) && e == (#[trigger] s[j].address, s[j].info);
    assert(0 <= j < n + 1 && is_last_account(s, j) && e == (s[j].address, s[j].info));
}

/// The entry enters the net diff: every entry does when changes are not
/// checked, else only one whose present value differs from its original.
pub open spec fn account_in_diff(x: BundleAccount, omit_changed_check: bool) -> bool {
    omit_changed_check || x.info != x.original_info
}

/// The range wipes the address's persisted storage: its account ends
/// destroyed, or a revert record of the range wipes it.
pub open spec fn storage_wiped(accounts: Seq<BundleAccount>, reverts: Seq<Vec<AccountRevert>>, a: Address) -> bool {
    (account_map(accounts).contains_key(a) && account_map(accounts)[a].status.destroyed()) || wipes_address(reverts, a)
}

/// Whether the range wipes the address's persisted storage.
fn address_wiped(accounts: &Vec<BundleAccount>, reverts: &Vec<Vec<AccountRevert>>, a: &Address) -> (r: bool)
    ensures
        r == storage_wiped(accounts@, reverts@, *a),
{
    let destroyed = match find_account(accounts, a) {
        Some(i) => accounts[i].status.was_destroyed(),
        None => false,
    };
    if destroyed {
        return true;
    }
    let mut b: usize = 0;
    while b < reverts.len()
        invariant
            b <= reverts@.len(),
            forall|c: int| 0 <= c < b ==> !wipes_in(#[trigger] reverts@[c]@, *a),
        decreases reverts@.len() - b,
    {
        let recs = &reverts[b];
        let mut i: usize = 0;
        while i < recs.len()
            invariant
                i <= recs@.len(),
                b < reverts@.len(),
                recs@ == reverts@[b as int]@,
                forall|c: int| 0 <= c < b ==> !wipes_in(#[trigger] reverts@[c]@, *a),
                forall|q: int| 0 <= q < i ==> !(#[trigger] recs@[q].address == *a && recs@[q].wipe_storage),
            decreases recs@.len() - i,
        {
            if recs[i].address == *a && recs[i].wipe_storage {
                assert(wipes_in(recs@, *a));
                assert(wipes_address(reverts@, *a));
                return true;
            }
            i = i + 1;
        }
        assert(!wipes_in(reverts@[b as int]@, *a));
        b = b + 1;
    }
    assert(!wipes_address(reverts@, *a));
    false
}

/// The slot enters the net diff: every slot does when changes are not
/// checked, else one whose present value differs from its original, and
/// every slot of an address whose storage the range wipes (the wipe takes
/// the persisted slot out, so the present value must be written back).
pub open spec fn slot_in_diff(
    x: StorageSlot,
    omit_changed_check: bool,
    accounts: Seq<BundleAccount>,
    reverts: Seq<Vec<AccountRevert>>,
) -> bool {
    omit_changed_check || x.present_value != x.original_value || storage_wiped(accounts, reverts, x.address)
}

/// The net account writes of the range: for each tracked address, its present value.
fn account_diff(s: &Vec<BundleAccount>, omit_changed_check: bool) -> (r: Vec<(Address, Option<Account>)>)
    ensures
        forall|a: Address| #[trigger] last_account_write(r@, a) == if account_map(s@).contains_key(a)
            && account_in_diff(account_map(s@)[a], omit_changed_check) {
            Some(account_map(s@)[a].info)
        } else {
            None
        },
{
    let mut out: Vec<(Address, Option<Account>)> = Vec::new();
    let mut i: usize = 0;
    while i < s.len()
        invariant
            i <= s@.len(),
            forall|j: int| 0 <= j < i && is_last_account(s@, j) && account_in_diff(s@[j], omit_changed_check)
                ==> last_account_write(out@, #[trigger] s@[j].address) == Some(s@[j].info),
            forall|a: Address| #[trigger] last_account_write(out@, a) is Some ==> exists|j: int|
                0 <= j < i && #[trigger] s@[j].address == a && is_last_account(s@, j) && account_in_diff(s@[j], omit_changed_check),
        decreases s@.len() - i,
    {
        let x = s[i];
        let found = find_account(s, &x.address);
        let last = match found {
            Some(p) => p == i,
            None => false,
        };
        proof {
            lemma_account_map_contains(s@, x.address);
            if let Some(p) = found {
                if p != i {
                    assert(s@[p as int].address == s@[i as int].address);
                }
            }
        }
        let in_diff = omit_changed_check || x.info != x.original_info;
        assert(last == is_last_account(s@, i as int));
        if last && in_diff {
            let ghost o = out@;
            out.push((x.address, x.info));
            proof {
                assert(out@.drop_last() == o);
                assert forall|j: int| 0 <= j < i + 1 && is_last_account(s@, j) && account_in_diff(s@[j], omit_changed_check)
                    implies last_account_write(out@, #[trigger] s@[j].address) == Some(s@[j].info) by {
                    if j < i {
                        assert(s@[i as int].address != s@[j].address);
                    }
                }
                assert forall|a: Address| #[trigger] last_account_write(out@, a) is Some implies exists|j: int|
                    0 <= j < i + 1 && #[trigger] s@[j].address == a && is_last_account(s@, j) && account_in_diff(s@[j], omit_changed_check) by {
                    if a == x.address {
                        assert(s@[i as int].address == a);
                    } else {
                        assert(last_account_write(out@, a) == last_account_write(o, a));
                        let j = choose|j: int| 0 <= j < i && #[trigger] s@[j].address == a && is_last_account(s@, j) && account_in_diff(s@[j], omit_changed_check);
                    }
                }
            }
        }
        i = i + 1;
    }
    proof {
        assert forall|a: Address| #[trigger] last_account_write(out@, a) == if account_map(s@).contains_key(a)
            && account_in_diff(account_map(s@)[a], omit_changed_check) {
            Some(account_map(s@)[a].info)
        } else {
            None
        } by {
            lemma_account_map_contains(s@, a);
            if account_map(s@).contains_key(a) {
                let j = choose|j: int| 0 <= j < s@.len() && #[trigger] s@[j].address == a && is_last_account(s@, j) && s@[j] == account_map(s@)[a];
                if last_account_write(out@, a) is Some {
                    let j2 = choose|j2: int| 0 <= j2 < i && #[trigger] s@[j2].address == a && is_last_account(s@, j2) && account_in_diff(s@[j2], omit_changed_check);
                    if j2 < j {
                        assert(s@[j].address != s@[j2].address);
                    } else if j2 > j {
                        assert(s@[j2].address != s@[j].address);
                    }
                }
            } else if last_account_write(out@, a) is Some {
                let j2 = choose|j2: int| 0 <= j2 < i && #[trigger] s@[j2].address == a && is_last_account(s@, j2) && account_in_diff(s@[j2], omit_changed_check);
            }
        }
    }
    out
}

/// The net slot writes of the range: for each tracked slot, its present value.
fn slot_diff(
    s: &Vec<StorageSlot>,
    omit_changed_check: bool,
    accounts: &Vec<BundleAccount>,
    reverts: &Vec<Vec<AccountRevert>>,
) -> (r: Vec<PlainSlot>)
    ensures
        forall|a: Address, k: U256| #[trigger] last_slot_write(r@, a, k) == if slot_map(s@).contains_key((a, k))
            && slot_in_diff(slot_map(s@)[(a, k)], omit_changed_check, accounts@, reverts@) {
            Some(slot_map(s@)[(a, k)].present_value)
        } else {
            None
        },
{
    let mut out: Vec<PlainSlot> = Vec::new();
    let mut i: usize = 0;
    while i < s.len()
        invariant
            i <= s@.len(),
            forall|j: int| 0 <= j < i && is_last_slot(s@, j) && slot_in_diff(s@[j], omit_changed_check, accounts@, reverts@)
                ==> last_slot_write(out@, #[trigger] s@[j].address, s@[j].key) == Some(s@[j].present_value),
            forall|a: Address, k: U256| #[trigger] last_slot_write(out@, a, k) is Some ==> exists|j: int|
                0 <= j < i && #[trigger] s@[j].address == a && s@[j].key == k && is_last_slot(s@, j) && slot_in_diff(s@[j], omit_changed_check, accounts@, reverts@),
        decreases s@.len() - i,
    {
        let x = s[i];
        let found = find_slot(s, &x.address, &x.key);
        let last = match found {
            Some(p) => p == i,
            None => false,
        };
        proof {
            lemma_slot_map_contains(s@, x.address, x.key);
            if let Some(p) = found {
                if p != i {
                    assert(s@[p as int].address == s@[i as int].address && s@[p as int].key == s@[i as int].key);
                }
            }
        }
        let in_diff = omit_changed_check || x.present_value != x.original_value || address_wiped(accounts, reverts, &x.address);
        assert(last == is_last_slot(s@, i as int));
        if last && in_diff {
            let ghost o = out@;
            out.push(PlainSlot { address: x.address, key: x.key, value: x.present_value });
            proof {
                assert(out@.drop_last() == o);
                assert forall|j: int| 0 <= j < i + 1 && is_last_slot(s@, j) && slot_in_diff(s@[j], omit_changed_check, accounts@, reverts@)
                    implies last_slot_write(out@, #[trigger] s@[j].address, s@[j].key) == Some(s@[j].present_value) by {
                    if j < i {
                        assert(!(s@[i as int].address == s@[j].address && s@[i as int].key == s@[j].key));
                    }
                }
                assert forall|a: Address, k: U256| #[trigger] last_slot_write(out@, a, k) is Some implies exists|j: int|
                    0 <= j < i + 1 && #[trigger] s@[j].address == a && s@[j].key == k && is_last_slot(s@, j) && slot_in_diff(s@[j], omit_changed_check, accounts@, reverts@) by {
                    if a == x.address && k == x.key {
                        assert(s@[i as int].address == a);
                    } else {
                        assert(last_slot_write(out@, a, k) == last_slot_write(o, a, k));
                        let j = choose|j: int| 0 <= j < i && #[trigger] s@[j].address == a && s@[j].key == k && is_last_slot(s@, j) && slot_in_diff(s@[j], omit_changed_check, accounts@, reverts@);
                    }
                }
            }
        }
        i = i + 1;
    }
    proof {
        assert forall|a: Address, k: U256| #[trigger] last_slot_write(out@, a, k) == if slot_map(s@).contains_key((a, k))
            && slot_in_diff(slot_map(s@)[(a, k)], omit_changed_check, accounts@, reverts@) {
            Some(slot_map(s@)[(a, k)].present_value)
        } else {
            None
        } by {
            lemma_slot_map_contains(s@, a, k);
            if slot_map(s@).contains_key((a, k)) {
                let j = choose|j: int| 0 <= j < s@.len() && #[trigger] s@[j].address == a && s@[j].key == k && is_last_slot(s@, j) && s@[j] == slot_map(s@)[(a, k)];
                if last_slot_write(out@, a, k) is Some {
                    let j2 = choose|j2: int| 0 <= j2 < i && #[trigger] s@[j2].address == a && s@[j2].key == k && is_last_slot(s@, j2) && slot_in_diff(s@[j2], omit_changed_check, accounts@, reverts@);
                    if j2 < j {
                        assert(!(s@[j].address == s@[j2].address && s@[j].key == s@[j2].key));
                    } else if j2 > j {
                        assert(!(s@[j2].address == s@[j].address && s@[j2].key == s@[j].key));
                    }
                }
            } else if last_slot_write(out@, a, k) is Some {
                let j2 = choose|j2: int| 0 <= j2 < i && #[trigger] s@[j2].address == a && s@[j2].key == k && is_last_slot(s@, j2) && slot_in_diff(s@[j2], omit_changed_check, accounts@, reverts@);
            }
        }
    }
    out
}

/// The receipts of a run of blocks, in block order.
pub open spec fn flat_receipts(rs: Seq<Vec<Receipt>>) -> Seq<Receipt> {
    rs.map_values(|v: Vec<Receipt>| v@).flatten_alt()
}

impl BundleState {
    /// The net diff of the range: each tracked account and slot with its
    /// present value (only the changed ones unless `omit_changed_check`),
    /// and the range's code.
    pub fn plain_change(&self, omit_changed_check: bool) -> (r: StateChange)
        ensures
            forall|a: Address| #[trigger] last_account_write(r.accounts@, a) == if self.maps().0.contains_key(a)
                && account_in_diff(self.maps().0[a], omit_changed_check) {
                Some(self.maps().0[a].info)
            } else {
                None
            },
            forall|a: Address, k: U256| #[trigger] last_slot_write(r.storage@, a, k) == if self.maps().1.contains_key((a, k))
                && slot_in_diff(self.maps().1[(a, k)], omit_changed_check, self.accounts@, self.reverts@) {
                Some(self.maps().1[(a, k)].present_value)
            } else {
                None
            },
            r.contracts@.len() == self.contracts@.len(),
            forall|i: int| 0 <= i < self.contracts@.len() ==> #[trigger] r.contracts@[i].0 == self.contracts@[i].0
                && r.contracts@[i].1.0@ == self.contracts@[i].1.0@,
    {
        StateChange {
            accounts: account_diff(&self.accounts, omit_changed_check),
            storage: slot_diff(&self.storage, omit_changed_check, &self.accounts, &self.reverts),
            contracts: copy_contracts(&self.contracts),
        }
    }

    /// Flushes the range to the store, consuming it: appends its receipts at
    /// the next global indexes, writes the change-sets of its blocks (taking
    /// wiped storage out of present state), then writes its net diff.
    /// `omit_changed_check` writes every tracked value, also those equal to
    /// their originals, for a range whose originals are no longer known.
    pub fn write_to_db(self, store: &mut Store, omit_changed_check: bool)
        requires
            self.wf(),
            old(store).wf(),
        ensures
            final(store).wf(),
            final(store).receipts@ == old(store).receipts@ + flat_receipts(self.receipts@),
            final(store).account_changesets@ == old(store).account_changesets@ + account_rows(self.reverts@, self.first_block as int),
            final(store).storage_changesets@.len() >= old(store).storage_changesets@.len(),
            final(store).storage_changesets@.subrange(0, old(store).storage_changesets@.len() as int)
                == old(store).storage_changesets@,
            final(store).storage_changesets@ == old(store).storage_changesets@ + storage_history_rows(
                old(store).plain_storage@,
                self.reverts@,
                self.first_block as int,
            ),
            no_wiped_slots(*old(store), self.reverts@) ==> final(store).storage_changesets@
                == old(store).storage_changesets@ + recorded_storage_rows(self.reverts@, self.first_block as int),
            forall|i: int| 0 <= i < self.contracts@.len() ==> has_code(final(store).bytecodes@, #[trigger] self.contracts@[i].0),
            forall|h: H256| #[trigger] last_code(self.contracts@, h) matches Some(c) ==> stores_code(final(store).bytecodes@, h, c),
            forall|i: int| 0 <= i < old(store).bytecodes@.len() && last_code(self.contracts@, #[trigger] old(store).bytecodes@[i].0) is None
                ==> final(store).bytecodes@.contains(old(store).bytecodes@[i]),
            forall|i: int| 0 <= i < final(store).bytecodes@.len() && last_code(self.contracts@, #[trigger] final(store).bytecodes@[i].0) is None
                ==> old(store).bytecodes@.contains(final(store).bytecodes@[i]),
            forall|e: PlainSlot| #[trigger] final(store).plain_storage@.contains(e) <==> if self.maps().1.contains_key((e.address, e.key))
                && slot_in_diff(self.maps().1[(e.address, e.key)], omit_changed_check, self.accounts@, self.reverts@) {
                self.maps().1[(e.address, e.key)].present_value@ != 0 && e.value == self.maps().1[(e.address, e.key)].present_value
            } else {
                old(store).plain_storage@.contains(e) && !wipes_address(self.reverts@, e.address)
            },
            forall|a: Address, k: U256, e: PlainSlot|
                #![trigger self.maps().1.contains_key((a, k)), final(store).plain_storage@.contains(e)]
                self.maps().1.contains_key((a, k)) && storage_wiped(self.accounts@, self.reverts@, a) && e.address == a && e.key == k
                    ==> (final(store).plain_storage@.contains(e) <==> (self.maps().1[(a, k)].present_value@ != 0
                        && e.value == self.maps().1[(a, k)].present_value)),
            forall|e: (Address, Account)| #[trigger] final(store).plain_accounts@.contains(e) <==> if self.maps().0.contains_key(e.0)
                && account_in_diff(self.maps().0[e.0], omit_changed_check) {
                self.maps().0[e.0].info == Some(e.1)
            } else {
                old(store).plain_accounts@.contains(e)
            },
    {
        let change = self.plain_change(omit_changed_check);
        let ghost maps = self.maps();
        let ghost slots_seq = self.storage@;
        let ghost (accts_seq, reverts_seq) = (self.accounts@, self.reverts@);
        let ghost codes = self.contracts@;
        let ghost cc = change.contracts@;
        assert(forall|i: int| 0 <= i < codes.len() ==> #[trigger] cc[i].0 == codes[i].0 && cc[i].1.0@ == codes[i].1.0@);
        let BundleState { accounts: _, storage: _, contracts: _, reverts, receipts, first_block } = self;
        let ghost orig = receipts@;
        let ghost r0 = store.receipts@;
        let mut rs = receipts;
        let total = rs.len();
        assert(orig.len() == total);
        let mut n: usize = 0;
        while rs.len() > 0
            invariant
                store.wf(),
                n <= orig.len(),
                orig.len() <= usize::MAX,
                rs@ == orig.subrange(n as int, orig.len() as int),
                store.receipts@ == r0 + flat_receipts(orig.take(n as int)),
                store.plain_accounts == old(store).plain_accounts,
                store.plain_storage == old(store).plain_storage,
                store.account_changesets == old(store).account_changesets,
                store.storage_changesets == old(store).storage_changesets,
                store.bytecodes == old(store).bytecodes,
            decreases rs@.len(),
        {
            let mut block = rs.remove(0);
            let ghost full = block@;
            let ghost before = store.receipts@;
            let size = block.len();
            assert(full.len() == size);
            let mut m: usize = 0;
            while block.len() > 0
                invariant
                    store.wf(),
                    m <= full.len(),
                    full.len() <= usize::MAX,
                    block@ == full.subrange(m as int, full.len() as int),
                    store.receipts@ == before + full.take(m as int),
                    store.plain_accounts == old(store).plain_accounts,
                    store.plain_storage == old(store).plain_storage,
                    store.account_changesets == old(store).account_changesets,
                    store.storage_changesets == old(store).storage_changesets,
                    store.bytecodes == old(store).bytecodes,
                decreases block@.len(),
            {
                let r = block.remove(0);
                store.append_receipt(r);
                assert(full.take(m + 1) == full.take(m as int).push(full[m as int]));
                m = m + 1;
            }
            assert(full.take(m as int) == full);
            proof {
                let t1 = orig.take(n + 1).map_values(|v: Vec<Receipt>| v@);
                assert(t1.drop_last() == orig.take(n as int).map_values(|v: Vec<Receipt>| v@));
                assert(t1.last() == full);
            }
            n = n + 1;
        }
        assert(orig.take(n as int) == orig);
        assert(no_wiped_slots(*store, reverts@) == no_wiped_slots(*old(store), reverts@));
        StateReverts::from(reverts).write_to_db(store, first_block);
        change.write_to_db(store);
        assert forall|a: Address, k: U256, e: PlainSlot|
            #![trigger maps.1.contains_key((a, k)), store.plain_storage@.contains(e)]
            maps.1.contains_key((a, k)) && storage_wiped(accts_seq, reverts_seq, a) && e.address == a && e.key == k
                implies (store.plain_storage@.contains(e) <==> (maps.1[(a, k)].present_value@ != 0
                    && e.value == maps.1[(a, k)].present_value)) by {
            lemma_slot_map_contains(slots_seq, a, k);
            let j = choose|j: int| 0 <= j < slots_seq.len() && #[trigger] slots_seq[j].address == a && slots_seq[j].key == k
                && is_last_slot(slots_seq, j) && slots_seq[j] == slot_map(slots_seq)[(a, k)];
            assert(maps.1[(a, k)].address == a);
            assert(slot_in_diff(maps.1[(a, k)], omit_changed_check, accts_seq, reverts_seq));
        }
        assert forall|h: H256| #[trigger] last_code(codes, h) == last_code(cc, h) by {
            lemma_last_code_same(codes, cc, h);
        }
        assert forall|i: int| 0 <= i < codes.len() implies has_code(store.bytecodes@, #[trigger] codes[i].0) by {
            assert(cc[i].0 == codes[i].0);
            assert(has_code(store.bytecodes@, cc[i].0));
        }
    }
}

/// An initial account: its value before the range, its present value, and
/// its slots as (key, value before the range, present value).
pub struct AccountInit {
    pub address: Address,
    pub original: Option<Account>,
    pub present: Option<Account>,
    pub storage: Vec<(U256, U256, U256)>,
}

/// An initial revert record of one address in one block: `None` leaves the
/// account as it is, `Some(None)` deletes it, `Some(Some(a))` restores `a`;
/// prior slot values ascend by key.
pub struct AccountRevertInit {
    pub address: Address,
    pub account: Option<Option<Account>>,
    pub storage: Vec<StorageEntry>,
}

/// How an initial record restores the account.
pub open spec fn info_revert_of(x: Option<Option<Account>>) -> AccountInfoRevert {
    match x {
        None => AccountInfoRevert::DoNothing,
        Some(None) => AccountInfoRevert::DeleteIt,
        Some(Some(a)) => AccountInfoRevert::RevertTo(a),
    }
}

/// The slot entries of the initial accounts, in order.
pub open spec fn init_slots(s: Seq<AccountInit>) -> Seq<StorageSlot>
    decreases s.len(),
{
    if s.len() == 0 {
        Seq::empty()
    } else {
        init_slots(s.drop_last()) + s.last().storage@.map_values(
            |e: (U256, U256, U256)| StorageSlot { address: s.last().address, key: e.0, original_value: e.1, present_value: e.2 },
        )
    }
}

impl BundleState {
    /// Builds the aggregator from initial accounts, per-block revert
    /// records, code and receipts; accounts start as changed and reverts
    /// restore the status they had before the range.
    pub fn new_init(
        state_init: Vec<AccountInit>,
        revert_init: Vec<Vec<AccountRevertInit>>,
        contracts_init: Vec<(H256, Bytecode)>,
        receipts: Vec<Vec<Receipt>>,
        first_block: BlockNumber,
    ) -> (r: Self)
        requires
            revert_init@.len() == receipts@.len(),
            first_block + receipts@.len() <= u64::MAX,
            forall|b: int, i: int|
                0 <= b < revert_init@.len() && 0 <= i < revert_init@[b]@.len() ==> keys_ascending(
                    #[trigger] revert_init@[b]@[i].storage@,
                ),
        ensures
            r.wf(),
            r.first_block == first_block,
            r.receipts == receipts,
            r.contracts == contracts_init,
            r.accounts@.len() == state_init@.len(),
            forall|i: int| 0 <= i < state_init@.len() ==> #[trigger] r.accounts@[i] == (BundleAccount {
                address: state_init@[i].address,
                original_info: state_init@[i].original,
                info: state_init@[i].present,
                status: AccountStatus::Changed,
            }),
            r.storage@ == init_slots(state_init@),
            r.reverts@.len() == revert_init@.len(),
            forall|b: int| 0 <= b < revert_init@.len() ==> #[trigger] r.reverts@[b]@.len() == revert_init@[b]@.len(),
            forall|b: int, i: int| 0 <= b < revert_init@.len() && 0 <= i < revert_init@[b]@.len() ==> {
                let x = #[trigger] r.reverts@[b]@[i];
                let y = revert_init@[b]@[i];
                &&& x.address == y.address
                &&& x.account == info_revert_of(y.account)
                &&& x.storage@ == y.storage@
                &&& !x.wipe_storage
                &&& x.previous_status == AccountStatus::Unchanged
            },
    {
        let mut accounts: Vec<BundleAccount> = Vec::new();
        let mut storage: Vec<StorageSlot> = Vec::new();
        let mut i: usize = 0;
        while i < state_init.len()
            invariant
                i <= state_init@.len(),
                accounts@.len() == i,
                forall|j: int| 0 <= j < i ==> #[trigger] accounts@[j] == (BundleAccount {
                    address: state_init@[j].address,
                    original_info: state_init@[j].original,
                    info: state_init@[j].present,
                    status: AccountStatus::Changed,
                }),
                storage@ == init_slots(state_init@.take(i as int)),
            decreases state_init@.len() - i,
        {
            let x = &state_init[i];
            accounts.push(BundleAccount {
                address: x.address,
                original_info: x.original,
                info: x.present,
                status: AccountStatus::Changed,
            });
            let ghost before = storage@;
            let mut j: usize = 0;
            while j < x.storage.len()
                invariant
                    j <= x.storage@.len(),
                    storage@ == before + x.storage@.take(j as int).map_values(
                        |e: (U256, U256, U256)| StorageSlot { address: x.address, key: e.0, original_value: e.1, present_value: e.2 },
                    ),
                decreases x.storage@.len() - j,
            {
                let (k, o, p) = x.storage[j];
                storage.push(StorageSlot { address: x.address, key: k, original_value: o, present_value: p });
                assert(x.storage@.take(j + 1) == x.storage@.take(j as int).push(x.storage@[j as int]));
                j = j + 1;
            }
            assert(x.storage@.take(j as int) == x.storage@);
            assert(state_init@.take(i + 1).drop_last() == state_init@.take(i as int));
            i = i + 1;
        }
        assert(state_init@.take(i as int) == state_init@);
        let mut reverts: Vec<Vec<AccountRevert>> = Vec::new();
        let mut rest = revert_init;
        let ghost ri = rest@;
        let total = rest.len();
        let mut b: usize = 0;
        while rest.len() > 0
            invariant
                b <= ri.len(),
                total == ri.len(),
                rest@ == ri.subrange(b as int, ri.len() as int),
                reverts@.len() == b,
                forall|c: int| 0 <= c < b ==> #[trigger] reverts@[c]@.len() == ri[c]@.len(),
                forall|c: int, q: int| 0 <= c < b && 0 <= q < ri[c]@.len() ==> {
                    let x = #[trigger] reverts@[c]@[q];
                    let y = ri[c]@[q];
                    &&& x.address == y.address
                    &&& x.account == info_revert_of(y.account)
                    &&& x.storage@ == y.storage@
                    &&& !x.wipe_storage
                    &&& x.previous_status == AccountStatus::Unchanged
                },
            decreases rest@.len(),
        {
            let mut block = rest.remove(0);
            let ghost full = block@;
            let size = block.len();
            let mut recs: Vec<AccountRevert> = Vec::new();
            while block.len() > 0
                invariant
                    recs@.len() + block@.len() == full.len(),
                    block@ == full.subrange(recs@.len() as int, full.len() as int),
                    forall|q: int| 0 <= q < recs@.len() ==> {
                        let x = #[trigger] recs@[q];
                        let y = full[q];
                        &&& x.address == y.address
                        &&& x.account == info_revert_of(y.account)
                        &&& x.storage@ == y.storage@
                        &&& !x.wipe_storage
                        &&& x.previous_status == AccountStatus::Unchanged
                    },
                decreases block@.len(),
            {
                let y = block.remove(0);
                let AccountRevertInit { address, account, storage: slots } = y;
                let account = match account {
                    None => AccountInfoRevert::DoNothing,
                    Some(None) => AccountInfoRevert::DeleteIt,
                    Some(Some(a)) => AccountInfoRevert::RevertTo(a),
                };
                recs.push(AccountRevert {
                    address,
                    account,
                    storage: slots,
                    wipe_storage: false,
                    previous_status: AccountStatus::Unchanged,
                });
            }
            reverts.push(recs);
            b = b + 1;
        }
        let r = BundleState { accounts, storage, contracts: contracts_init, reverts, receipts, first_block };
        assert(forall|c: int, q: int| 0 <= c < r.reverts@.len() && 0 <= q < r.reverts@[c]@.len() ==> keys_ascending(#[trigger] r.reverts@[c]@[q].storage@) && r.reverts@[c]@[q].storage@ == ri[c]@[q].storage@);
        r
    }
}

} // verus!
