//! The net diff of an aggregated range and how it updates present state.
use vstd::prelude::*;
use crate::types::{Account, Address, Bytecode, H256, U256};
use crate::store::{PlainSlot, Store};

verus! {

/// The last value written for an address by a list of account writes.
pub open spec fn last_account_write(s: Seq<(Address, Option<Account>)>, a: Address) -> Option<Option<Account>>
    decreases s.len(),
{
    if s.len() == 0 {
        None
    } else if s.last().0 == a {
        Some(s.last().1)
    } else {
        last_account_write(s.drop_last(), a)
    }
}

/// The last value written for a slot by a list of slot writes.
pub open spec fn last_slot_write(s: Seq<PlainSlot>, a: Address, k: U256) -> Option<U256>
    decreases s.len(),
{
    if s.len() == 0 {
        None
    } else if s.last().address == a && s.last().key == k {
        Some(s.last().value)
    } else {
        last_slot_write(s.drop_last(), a, k)
    }
}

/// Some entry of the code table has this hash.
pub open spec fn has_code(codes: Seq<(H256, Bytecode)>, h: H256) -> bool {
    exists|j: int| 0 <= j < codes.len() && #[trigger] codes[j].0 == h
}

/// The last code given for a hash by a list of code writes.
pub open spec fn last_code(cs: Seq<(H256, Bytecode)>, h: H256) -> Option<Seq<u8>>
    decreases cs.len(),
{
    if cs.len() == 0 {
        None
    } else if cs.last().0 == h {
        Some(cs.last().1.0@)
    } else {
        last_code(cs.drop_last(), h)
    }
}

/// The code table holds code `c` under hash `h`.
pub open spec fn stores_code(codes: Seq<(H256, Bytecode)>, h: H256, c: Seq<u8>) -> bool {
    exists|j: int| 0 <= j < codes.len() && #[trigger] codes[j].0 == h && codes[j].1.0@ == c
}

/// Code lists with the same hashes and bytes, entry by entry, give the same
/// last code for every hash.
pub proof fn lemma_last_code_same(a: Seq<(H256, Bytecode)>, b: Seq<(H256, Bytecode)>, h: H256)
    requires
        a.len() == b.len(),
        forall|i: int| 0 <= i < a.len() ==> #[trigger] a[i].0 == b[i].0 && a[i].1.0@ == b[i].1.0@,
    ensures
        last_code(a, h) == last_code(b, h),
    decreases a.len(),
{
    if a.len() > 0 {
        assert(a.last() == a[a.len() - 1] && b.last() == b[b.len() - 1]);
        lemma_last_code_same(a.drop_last(), b.drop_last(), h);
    }
}

/// Net changes to present state: account values (`None`: the account is
/// gone), slot values (zero: the slot is empty) and new code.
pub struct StateChange {
    pub accounts: Vec<(Address, Option<Account>)>,
    pub storage: Vec<PlainSlot>,
    pub contracts: Vec<(H256, Bytecode)>,
}

impl StateChange {
    /// Applies the changes to present state: each slot write replaces the
    /// slot, and a zero leaves it empty; each account write stores the
    /// account or deletes it; code is stored under its hash.
    pub fn write_to_db(self, store: &mut Store)
        requires
            old(store).wf(),
        ensures
            final(store).wf(),
            final(store).account_changesets == old(store).account_changesets,
            final(store).storage_changesets == old(store).storage_changesets,
            final(store).receipts == old(store).receipts,
            forall|e: PlainSlot| #[trigger] final(store).plain_storage@.contains(e) <==> match last_slot_write(self.storage@, e.address, e.key) {
                Some(v) => v@ != 0 && e.value == v,
                None => old(store).plain_storage@.contains(e),
            },
            forall|e: (Address, Account)| #[trigger] final(store).plain_accounts@.contains(e) <==> match last_account_write(self.accounts@, e.0) {
                Some(info) => info == Some(e.1),
                None => old(store).plain_accounts@.contains(e),
            },
            forall|i: int| 0 <= i < self.contracts@.len() ==> has_code(final(store).bytecodes@, #[trigger] self.contracts@[i].0),
            forall|h: H256| #[trigger] last_code(self.contracts@, h) matches Some(c) ==> stores_code(final(store).bytecodes@, h, c),
            forall|i: int| 0 <= i < old(store).bytecodes@.len() && last_code(self.contracts@, #[trigger] old(store).bytecodes@[i].0) is None
                ==> final(store).bytecodes@.contains(old(store).bytecodes@[i]),
            forall|i: int| 0 <= i < final(store).bytecodes@.len() && last_code(self.contracts@, #[trigger] final(store).bytecodes@[i].0) is None
                ==> old(store).bytecodes@.contains(final(store).bytecodes@[i]),
            forall|a: Address, k: U256, e: PlainSlot|
                #![trigger last_slot_write(self.storage@, a, k), final(store).plain_storage@.contains(e)]
                last_slot_write(self.storage@, a, k) matches Some(v) && v@ == 0 && e.address == a && e.key == k
                    ==> !final(store).plain_storage@.contains(e),
    {
        let ghost cs = self.contracts@;
        let StateChange { accounts, storage, contracts } = self;
        let ghost plain0 = store.plain_storage@;
        let mut i: usize = 0;
        while i < storage.len()
            invariant
                store.wf(),
                i <= storage@.len(),
                store.plain_accounts == old(store).plain_accounts,
                store.account_changesets == old(store).account_changesets,
                store.storage_changesets == old(store).storage_changesets,
                store.receipts == old(store).receipts,
                store.bytecodes == old(store).bytecodes,
                plain0 == old(store).plain_storage@,
                contracts@ == cs,
                forall|e: PlainSlot| #[trigger] store.plain_storage@.contains(e) <==> match last_slot_write(storage@.take(i as int), e.address, e.key) {
                    Some(v) => v@ != 0 && e.value == v,
                    None => plain0.contains(e),
                },
            decreases storage@.len() - i,
        {
            let x = storage[i];
            store.set_slot(x.address, x.key, x.value);
            assert(storage@.take(i + 1).drop_last() == storage@.take(i as int));
            i = i + 1;
        }
        assert(storage@.take(i as int) == storage@);
        let ghost a0 = store.plain_accounts@;
        let mut i: usize = 0;
        while i < accounts.len()
            invariant
                store.wf(),
                i <= accounts@.len(),
                store.account_changesets == old(store).account_changesets,
                store.storage_changesets == old(store).storage_changesets,
                store.receipts == old(store).receipts,
                store.bytecodes == old(store).bytecodes,
                a0 == old(store).plain_accounts@,
                contracts@ == cs,
                forall|e: PlainSlot| #[trigger] store.plain_storage@.contains(e) <==> match last_slot_write(storage@, e.address, e.key) {
                    Some(v) => v@ != 0 && e.value == v,
                    None => plain0.contains(e),
                },
                forall|e: (Address, Account)| #[trigger] store.plain_accounts@.contains(e) <==> match last_account_write(accounts@.take(i as int), e.0) {
                    Some(info) => info == Some(e.1),
                    None => a0.contains(e),
                },
            decreases accounts@.len() - i,
        {
            let x = accounts[i];
            store.set_account(x.0, x.1);
            assert(accounts@.take(i + 1).drop_last() == accounts@.take(i as int));
            i = i + 1;
        }
        assert(accounts@.take(i as int) == accounts@);
        let mut contracts = contracts;
        let ghost b0 = store.bytecodes@;
        assert(cs.take(0) =~= Seq::<(H256, Bytecode)>::empty());
        assert forall|i: int| 0 <= i < store.bytecodes@.len() implies b0.contains(#[trigger] store.bytecodes@[i]) by {}
        let total = contracts.len();
        assert(cs.len() == total);
        let mut n: usize = 0;
        while contracts.len() > 0
            invariant
                store.wf(),
                n + contracts@.len() == cs.len(),
                cs.len() <= usize::MAX,
                contracts@ == cs.subrange(n as int, cs.len() as int),
                store.account_changesets == old(store).account_changesets,
                store.storage_changesets == old(store).storage_changesets,
                store.receipts == old(store).receipts,
                forall|e: PlainSlot| #[trigger] store.plain_storage@.contains(e) <==> match last_slot_write(storage@, e.address, e.key) {
                    Some(v) => v@ != 0 && e.value == v,
                    None => plain0.contains(e),
                },
                forall|e: (Address, Account)| #[trigger] store.plain_accounts@.contains(e) <==> match last_account_write(accounts@, e.0) {
                    Some(info) => info == Some(e.1),
                    None => a0.contains(e),
                },
                forall|i: int| 0 <= i < n ==> has_code(store.bytecodes@, #[trigger] cs[i].0),
                b0 == old(store).bytecodes@,
                forall|h: H256| #[trigger] last_code(cs.take(n as int), h) matches Some(c) ==> stores_code(store.bytecodes@, h, c),
                forall|i: int| 0 <= i < b0.len() && last_code(cs.take(n as int), #[trigger] b0[i].0) is None
                    ==> store.bytecodes@.contains(b0[i]),
                forall|i: int| 0 <= i < store.bytecodes@.len() && last_code(cs.take(n as int), #[trigger] store.bytecodes@[i].0) is None
                    ==> b0.contains(store.bytecodes@[i]),
            decreases contracts@.len(),
        {
            let (h, code) = contracts.remove(0);
            let ghost old_codes = store.bytecodes@;
            let ghost cbytes = code.0@;
            store.put_bytecode(h, code);
            proof {
                let t0 = cs.take(n as int);
                let t1 = cs.take(n + 1);
                assert(t1.drop_last() == t0);
                assert(t1.last() == cs[n as int]);
                assert(cs[n as int].0 == h && cs[n as int].1.0@ == cbytes);
                assert forall|g: H256| #[trigger] last_code(t1, g) is Some implies stores_code(store.bytecodes@, g, last_code(t1, g).unwrap()) by {
                    if g == h {
                        assert(last_code(t1, g) == Some(cbytes));
                        let k = choose|k: int| 0 <= k < store.bytecodes@.len() && #[trigger] store.bytecodes@[k].0 == h
                            && store.bytecodes@[k].1.0@ == cbytes;
                    } else {
                        let c = last_code(t0, g).unwrap();
                        assert(stores_code(old_codes, g, c));
                        let j = choose|j: int| 0 <= j < old_codes.len() && #[trigger] old_codes[j].0 == g && old_codes[j].1.0@ == c;
                        assert(store.bytecodes@.contains(old_codes[j]));
                        let k = choose|k: int| 0 <= k < store.bytecodes@.len() && store.bytecodes@[k] == old_codes[j];
                        assert(store.bytecodes@[k].0 == g);
                    }
                }
                assert forall|i: int| 0 <= i < b0.len() && last_code(t1, #[trigger] b0[i].0) is None
                    implies store.bytecodes@.contains(b0[i]) by {
                    assert(b0[i].0 != h);
                    assert(last_code(t0, b0[i].0) is None);
                    assert(old_codes.contains(b0[i]));
                    let j = choose|j: int| 0 <= j < old_codes.len() && old_codes[j] == b0[i];
                    assert(old_codes[j].0 != h);
                }
                assert forall|i: int| 0 <= i < store.bytecodes@.len() && last_code(t1, #[trigger] store.bytecodes@[i].0) is None
                    implies b0.contains(store.bytecodes@[i]) by {
                    assert(store.bytecodes@[i].0 != h);
                    assert(old_codes.contains(store.bytecodes@[i]));
                    let j = choose|j: int| 0 <= j < old_codes.len() && old_codes[j] == store.bytecodes@[i];
                    assert(last_code(t0, old_codes[j].0) is None);
                }
                assert(cs[n as int].0 == h);
                assert forall|i: int| 0 <= i < n + 1 implies has_code(store.bytecodes@, #[trigger] cs[i].0) by {
                    if i < n && cs[i].0 != h {
                        let j = choose|j: int| 0 <= j < old_codes.len() && #[trigger] old_codes[j].0 == cs[i].0;
                        assert(store.bytecodes@.contains(old_codes[j]));
                        let k = choose|k: int| 0 <= k < store.bytecodes@.len() && store.bytecodes@[k] == old_codes[j];
                        assert(store.bytecodes@[k].0 == cs[i].0);
                    }
                }
            }
            n = n + 1;
        }
        assert(cs.take(n as int) == cs);
    }
}

} // verus!
