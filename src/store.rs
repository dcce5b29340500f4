//! An ordered key-value store of present state, change-sets, receipts and
//! code, held in memory.
use vstd::prelude::*;
use crate::types::{
    keys_ascending, Account, Address, BlockNumber, Bytecode, H256, Receipt, StorageEntry, U256, lemma_address_order,
    lemma_u256_view_injective,
};

verus! {

/// One persisted storage slot of an account.
#[derive(Clone, Copy, Debug, PartialEq, Eq, Structural)]
pub struct PlainSlot {
    pub address: Address,
    pub key: U256,
    pub value: U256,
}

/// An account's value before a block, as kept in the account change-set.
#[derive(Clone, Copy, Debug, PartialEq, Eq, Structural)]
pub struct AccountBeforeTx {
    pub block: BlockNumber,
    pub address: Address,
    pub info: Option<Account>,
}

/// A slot's value before a block, as kept in the storage change-set.
#[derive(Clone, Copy, Debug, PartialEq, Eq, Structural)]
pub struct StorageBeforeTx {
    pub block: BlockNumber,
    pub address: Address,
    pub entry: StorageEntry,
}

/// Slot `x` comes before slot `y`: by address, then by key.
pub open spec fn slot_before(x: PlainSlot, y: PlainSlot) -> bool {
    x.address@ < y.address@ || (x.address@ == y.address@ && x.key@ < y.key@)
}

/// The slots of address `a` in a slot sequence, in order, as entries.
pub open spec fn slots_of(s: Seq<PlainSlot>, a: Address) -> Seq<StorageEntry>
    decreases s.len(),
{
    if s.len() == 0 {
        Seq::empty()
    } else if s.last().address == a {
        slots_of(s.drop_last(), a).push(StorageEntry { key: s.last().key, value: s.last().value })
    } else {
        slots_of(s.drop_last(), a)
    }
}

/// The persisted tables.
#[derive(Debug)]
pub struct Store {
    /// Present accounts, one entry per address.
    pub plain_accounts: Vec<(Address, Account)>,
    /// Present non-zero slots, ascending by address and key.
    pub plain_storage: Vec<PlainSlot>,
    /// Account change-set, in order of writing.
    pub account_changesets: Vec<AccountBeforeTx>,
    /// Storage change-set, in order of writing.
    pub storage_changesets: Vec<StorageBeforeTx>,
    /// Receipts; an entry's position is its global index.
    pub receipts: Vec<Receipt>,
    /// Code by hash.
    pub bytecodes: Vec<(H256, Bytecode)>,
}

impl Store {
    /// Slots ascend strictly and none holds zero; addresses of accounts and
    /// hashes of code occur once each.
    pub open spec fn wf(&self) -> bool {
        &&& forall|i: int, j: int|
            0 <= i < j < self.plain_storage@.len() ==> slot_before(
                #[trigger] self.plain_storage@[i],
                #[trigger] self.plain_storage@[j],
            )
        &&& forall|i: int| 0 <= i < self.plain_storage@.len() ==> #[trigger] self.plain_storage@[i].value@ != 0
        &&& forall|i: int, j: int|
            0 <= i < j < self.plain_accounts@.len() ==> #[trigger] self.plain_accounts@[i].0
                != #[trigger] self.plain_accounts@[j].0
        &&& forall|i: int, j: int|
            0 <= i < j < self.bytecodes@.len() ==> #[trigger] self.bytecodes@[i].0 != #[trigger] self.bytecodes@[j].0
    }

    /// An empty store.
    pub fn new() -> (r: Store)
        ensures
            r.wf(),
            r.plain_accounts@.len() == 0,
            r.plain_storage@.len() == 0,
            r.account_changesets@.len() == 0,
            r.storage_changesets@.len() == 0,
            r.receipts@.len() == 0,
            r.bytecodes@.len() == 0,
    {
        Store {
            plain_accounts: Vec::new(),
            plain_storage: Vec::new(),
            account_changesets: Vec::new(),
            storage_changesets: Vec::new(),
            receipts: Vec::new(),
            bytecodes: Vec::new(),
        }
    }

    /// Position of the first slot not before (`a`, `k`).
    fn slot_position(&self, a: &Address, k: &U256) -> (p: usize)
        requires
            self.wf(),
        ensures
            p <= self.plain_storage@.len(),
            forall|i: int| 0 <= i < p ==> slot_before(#[trigger] self.plain_storage@[i], PlainSlot { address: *a, key: *k, value: U256 { hi: 0, lo: 0 } }),
            forall|i: int| p <= i < self.plain_storage@.len() ==> !slot_before(#[trigger] self.plain_storage@[i], PlainSlot { address: *a, key: *k, value: U256 { hi: 0, lo: 0 } }),
    {
        let ghost t = PlainSlot { address: *a, key: *k, value: U256 { hi: 0, lo: 0 } };
        let mut i: usize = 0;
        while i < self.plain_storage.len()
            invariant
                self.wf(),
                t == (PlainSlot { address: *a, key: *k, value: U256 { hi: 0, lo: 0 } }),
                i <= self.plain_storage@.len(),
                forall|j: int| 0 <= j < i ==> slot_before(#[trigger] self.plain_storage@[j], t),
            decreases self.plain_storage@.len() - i,
        {
            let x = self.plain_storage[i];
            let xa_lt = x.address.lt(a);
            let ax_lt = a.lt(&x.address);
            let xk_lt = x.key.lt(k);
            let before = xa_lt || (!ax_lt && xk_lt);
            assert(xa_lt == (x.address@ < t.address@));
            assert(ax_lt == (t.address@ < x.address@));
            assert(xk_lt == (x.key@ < t.key@));
            assert(before == slot_before(x, t));
            if !before {
                assert forall|j: int| i <= j < self.plain_storage@.len() implies !slot_before(#[trigger] self.plain_storage@[j], t) by {
                    if j > i {
                        let y = self.plain_storage@[j];
                        assert(slot_before(x, y));
                        if slot_before(y, t) {
                            assert(x.address@ <= y.address@ && y.address@ <= t.address@);
                            assert(slot_before(x, t));
                        }
                    }
                }
                return i;
            }
            i = i + 1;
        }
        i
    }

    /// Sets a slot: a zero value leaves no entry for it, any other value
    /// replaces what was there.
    pub fn set_slot(&mut self, a: Address, k: U256, v: U256)
        requires
            old(self).wf(),
        ensures
            final(self).wf(),
            final(self).plain_accounts == old(self).plain_accounts,
            final(self).account_changesets == old(self).account_changesets,
            final(self).storage_changesets == old(self).storage_changesets,
            final(self).receipts == old(self).receipts,
            final(self).bytecodes == old(self).bytecodes,
            forall|e: PlainSlot| #[trigger] final(self).plain_storage@.contains(e) <==> (
                (old(self).plain_storage@.contains(e) && !(e.address == a && e.key == k))
                || (v@ != 0 && e == (PlainSlot { address: a, key: k, value: v }))),
    {
        let ghost s0 = self.plain_storage@;
        let ghost t = PlainSlot { address: a, key: k, value: U256 { hi: 0, lo: 0 } };
        let p = self.slot_position(&a, &k);
        let found = p < self.plain_storage.len() && self.plain_storage[p].address == a && self.plain_storage[p].key == k;
        proof {
            assert forall|e: PlainSlot| s0.contains(e) && e.address == a && e.key == k implies found && e == s0[p as int] by {
                let i = choose|i: int| 0 <= i < s0.len() && s0[i] == e;
                if i < p {
                    assert(slot_before(s0[i], t));
                } else if i > p {
                    assert(!slot_before(s0[p as int], t));
                    assert(slot_before(s0[p as int], s0[i]));
                    lemma_address_order(s0[p as int].address, a);
                    lemma_u256_view_injective(s0[p as int].key, k);
                }
            }
        }
        if found {
            self.plain_storage.remove(p);
            proof {
                let s1 = self.plain_storage@;
                assert(s1 == s0.remove(p as int));
                assert forall|e: PlainSlot| s1.contains(e) <==> (s0.contains(e) && e != s0[p as int]) by {
                    if s1.contains(e) {
                        let i = choose|i: int| 0 <= i < s1.len() && s1[i] == e;
                        if i < p {
                            assert(s0[i] == e);
                            assert(slot_before(s0[i], s0[p as int]));
                        } else {
                            assert(s0[i + 1] == e);
                            assert(slot_before(s0[p as int], s0[i + 1]));
                        }
                    }
                    if s0.contains(e) && e != s0[p as int] {
                        let i = choose|i: int| 0 <= i < s0.len() && s0[i] == e;
                        if i < p {
                            assert(s1[i] == e);
                        } else {
                            assert(s1[i - 1] == e);
                        }
                    }
                }
            }
        }
        let ghost s1 = self.plain_storage@;
        assert(forall|i: int, j: int| 0 <= i < j < s1.len() ==> slot_before(#[trigger] s1[i], #[trigger] s1[j]));
        assert(forall|i: int| 0 <= i < p ==> slot_before(#[trigger] s1[i], t));
        assert(forall|i: int| p <= i < s1.len() ==> slot_before(t, #[trigger] s1[i])) by {
            assert forall|i: int| p <= i < s1.len() implies slot_before(t, #[trigger] s1[i]) by {
                let j = if found { i + 1 } else { i };
                assert(s1[i] == s0[j]);
                assert(!slot_before(s0[j], t));
                if !found || j > p {
                    if j > p {
                        assert(slot_before(s0[p as int], s0[j]));
                    }
                    lemma_address_order(s0[j].address, a);
                    lemma_u256_view_injective(s0[j].key, k);
                    if j == p {
                        assert(!(s0[j].address == a && s0[j].key == k));
                    }
                }
            }
        }
        if !v.is_zero() {
            let x = PlainSlot { address: a, key: k, value: v };
            self.plain_storage.insert(p, x);
            proof {
                let s2 = self.plain_storage@;
                assert(s2 == s1.insert(p as int, x));
                assert forall|i: int, j: int| 0 <= i < j < s2.len() implies slot_before(#[trigger] s2[i], #[trigger] s2[j]) by {
                    if j < p {
                    } else if j == p {
                        assert(slot_before(s1[i], t));
                    } else if i < p {
                        assert(slot_before(s1[i], t));
                        assert(slot_before(t, s1[j - 1]));
                    } else if i == p {
                        assert(slot_before(t, s1[j - 1]));
                    } else {
                        assert(slot_before(s1[i - 1], s1[j - 1]));
                    }
                }
                assert forall|e: PlainSlot| s2.contains(e) <==> (s1.contains(e) || e == x) by {
                    if s2.contains(e) {
                        let i = choose|i: int| 0 <= i < s2.len() && s2[i] == e;
                        if i < p {
                            assert(s1[i] == e);
                        } else if i > p {
                            assert(s1[i - 1] == e);
                        }
                    }
                    if s1.contains(e) {
                        let i = choose|i: int| 0 <= i < s1.len() && s1[i] == e;
                        if i < p {
                            assert(s2[i] == e);
                        } else {
                            assert(s2[i + 1] == e);
                        }
                    }
                    if e == x {
                        assert(s2[p as int] == e);
                    }
                }
                assert(forall|i: int| 0 <= i < s2.len() ==> #[trigger] s2[i].value@ != 0) by {
                    assert forall|i: int| 0 <= i < s2.len() implies #[trigger] s2[i].value@ != 0 by {
                        if i < p {
                            assert(s2[i] == s1[i]);
                        } else if i > p {
                            assert(s2[i] == s1[i - 1]);
                        }
                    }
                }
            }
        }
    }

    /// The persisted slots of an address, ascending by key.
    pub fn storage_of(&self, a: &Address) -> (r: Vec<StorageEntry>)
        requires
            self.wf(),
        ensures
            keys_ascending(r@),
            forall|e: StorageEntry| #[trigger] r@.contains(e) <==> self.plain_storage@.contains(
                PlainSlot { address: *a, key: e.key, value: e.value },
            ),
            r@ == slots_of(self.plain_storage@, *a),
    {
        let ghost s = self.plain_storage@;
        let mut out: Vec<StorageEntry> = Vec::new();
        let mut i: usize = 0;
        while i < self.plain_storage.len()
            invariant
                self.wf(),
                s == self.plain_storage@,
                i <= s.len(),
                forall|p: int| #![trigger out@[p]] 0 <= p < out@.len() ==> exists|j: int| 0 <= j < i && #[trigger] s[j] == (PlainSlot { address: *a, key: out@[p].key, value: out@[p].value }),
                forall|j: int| 0 <= j < i && #[trigger] s[j].address == *a ==> out@.contains(StorageEntry { key: s[j].key, value: s[j].value }),
                forall|p: int| 0 <= p < out@.len() && i < s.len() && s[i as int].address == *a ==> #[trigger] out@[p].key@ < s[i as int].key@,
                keys_ascending(out@),
                out@ == slots_of(s.take(i as int), *a),
            decreases s.len() - i,
        {
            let x = self.plain_storage[i];
            assert(s.take(i + 1).drop_last() == s.take(i as int));
            if x.address == *a {
                let ghost o = out@;
                out.push(StorageEntry { key: x.key, value: x.value });
                proof {
                    assert forall|p: int| #![trigger out@[p]] 0 <= p < out@.len() implies exists|j: int| 0 <= j < i + 1 && #[trigger] s[j] == (PlainSlot { address: *a, key: out@[p].key, value: out@[p].value }) by {
                        if p < o.len() {
                            assert(out@[p] == o[p]);
                        } else {
                            assert(s[i as int] == (PlainSlot { address: *a, key: out@[p].key, value: out@[p].value }));
                        }
                    }
                    assert forall|j: int| 0 <= j < i + 1 && #[trigger] s[j].address == *a implies out@.contains(StorageEntry { key: s[j].key, value: s[j].value }) by {
                        if j < i {
                            let p = choose|p: int| 0 <= p < o.len() && o[p] == (StorageEntry { key: s[j].key, value: s[j].value });
                            assert(out@[p] == o[p]);
                        } else {
                            assert(out@[o.len() as int] == (StorageEntry { key: s[j].key, value: s[j].value }));
                        }
                    }
                }
            }
            proof {
                if i + 1 < s.len() && s[i + 1].address == *a {
                    assert(slot_before(s[i as int], s[i + 1]));
                    assert forall|p: int| 0 <= p < out@.len() implies #[trigger] out@[p].key@ < s[i + 1].key@ by {
                        let j = choose|j: int| 0 <= j < i + 1 && #[trigger] s[j] == (PlainSlot { address: *a, key: out@[p].key, value: out@[p].value });
                        assert(slot_before(s[j], s[i + 1]));
                    }
                }
            }
            i = i + 1;
        }
        assert(s.take(i as int) == s);
        proof {
            assert forall|e: StorageEntry| #[trigger] out@.contains(e) <==> s.contains(PlainSlot { address: *a, key: e.key, value: e.value }) by {
                if out@.contains(e) {
                    let p = choose|p: int| 0 <= p < out@.len() && out@[p] == e;
                    let j = choose|j: int| 0 <= j < i && #[trigger] s[j] == (PlainSlot { address: *a, key: out@[p].key, value: out@[p].value });
                }
                if s.contains(PlainSlot { address: *a, key: e.key, value: e.value }) {
                    let j = choose|j: int| 0 <= j < s.len() && s[j] == (PlainSlot { address: *a, key: e.key, value: e.value });
                    assert(s[j].address == *a);
                }
            }
        }
        out
    }

    /// Deletes every persisted slot of an address.
    pub fn delete_storage_of(&mut self, a: &Address)
        requires
            old(self).wf(),
        ensures
            final(self).wf(),
            final(self).plain_accounts == old(self).plain_accounts,
            final(self).account_changesets == old(self).account_changesets,
            final(self).storage_changesets == old(self).storage_changesets,
            final(self).receipts == old(self).receipts,
            final(self).bytecodes == old(self).bytecodes,
            forall|e: PlainSlot| #[trigger] final(self).plain_storage@.contains(e) <==> (
                old(self).plain_storage@.contains(e) && e.address != *a),
            forall|x: Address| #[trigger] slots_of(final(self).plain_storage@, x) == if x == *a {
                Seq::<StorageEntry>::empty()
            } else {
                slots_of(old(self).plain_storage@, x)
            },
    {
        let ghost s = self.plain_storage@;
        let mut kept: Vec<PlainSlot> = Vec::new();
        let ghost mut src: Seq<int> = Seq::empty();
        let mut i: usize = 0;
        while i < self.plain_storage.len()
            invariant
                s == self.plain_storage@,
                i <= s.len(),
                src.len() == kept@.len(),
                forall|p: int| 0 <= p < kept@.len() ==> 0 <= #[trigger] src[p] < i && kept@[p] == s[src[p]] && s[src[p]].address != *a,
                forall|p: int, q: int| 0 <= p < q < kept@.len() ==> #[trigger] src[p] < #[trigger] src[q],
                forall|j: int| 0 <= j < i && #[trigger] s[j].address != *a ==> kept@.contains(s[j]),
                forall|y: Address| #[trigger] slots_of(kept@, y) == if y == *a {
                    Seq::<StorageEntry>::empty()
                } else {
                    slots_of(s.take(i as int), y)
                },
            decreases s.len() - i,
        {
            let x = self.plain_storage[i];
            let ghost k0 = kept@;
            assert(s.take(i + 1).drop_last() == s.take(i as int));
            if x.address != *a {
                let ghost o = kept@;
                kept.push(x);
                proof {
                    src = src.push(i as int);
                    assert forall|j: int| 0 <= j < i + 1 && #[trigger] s[j].address != *a implies kept@.contains(s[j]) by {
                        if j < i {
                            let p = choose|p: int| 0 <= p < o.len() && o[p] == s[j];
                            assert(kept@[p] == o[p]);
                        } else {
                            assert(kept@[o.len() as int] == s[j]);
                        }
                    }
                }
            }
            proof {
                assert forall|y: Address| #[trigger] slots_of(kept@, y) == if y == *a {
                    Seq::<StorageEntry>::empty()
                } else {
                    slots_of(s.take(i + 1), y)
                } by {
                    let t = s.take(i + 1);
                    assert(t.last() == x);
                    assert(t.drop_last() == s.take(i as int));
                    assert(slots_of(k0, y) == if y == *a {
                        Seq::<StorageEntry>::empty()
                    } else {
                        slots_of(s.take(i as int), y)
                    });
                    if x.address != *a {
                        assert(kept@.drop_last() == k0);
                        assert(kept@.last() == x);
                    } else {
                        assert(kept@ == k0);
                    }
                }
            }
            i = i + 1;
        }
        assert(s.take(i as int) == s);
        proof {
            let k = kept@;
            assert forall|p: int, q: int| 0 <= p < q < k.len() implies slot_before(#[trigger] k[p], #[trigger] k[q]) by {
                assert(src[p] < src[q]);
            }
            assert forall|e: PlainSlot| #[trigger] k.contains(e) <==> (s.contains(e) && e.address != *a) by {
                if k.contains(e) {
                    let p = choose|p: int| 0 <= p < k.len() && k[p] == e;
                    assert(s[src[p]] == e);
                }
                if s.contains(e) && e.address != *a {
                    let j = choose|j: int| 0 <= j < s.len() && s[j] == e;
                    assert(s[j].address != *a);
                }
            }
            assert forall|p: int| 0 <= p < k.len() implies #[trigger] k[p].value@ != 0 by {
                assert(k[p] == s[src[p]]);
            }
        }
        self.plain_storage = kept;
    }

    /// Sets an account: `Some` writes it, `None` deletes the entry if there is one.
    pub fn set_account(&mut self, a: Address, info: Option<Account>)
        requires
            old(self).wf(),
        ensures
            final(self).wf(),
            final(self).plain_storage == old(self).plain_storage,
            final(self).account_changesets == old(self).account_changesets,
            final(self).storage_changesets == old(self).storage_changesets,
            final(self).receipts == old(self).receipts,
            final(self).bytecodes == old(self).bytecodes,
            forall|e: (Address, Account)| #[trigger] final(self).plain_accounts@.contains(e) <==> (
                (old(self).plain_accounts@.contains(e) && e.0 != a) || (info == Some(e.1) && e.0 == a)),
    {
        let ghost s = self.plain_accounts@;
        let mut i: usize = 0;
        while i < self.plain_accounts.len() && self.plain_accounts[i].0 != a
            invariant
                s == self.plain_accounts@,
                i <= s.len(),
                forall|j: int| 0 <= j < i ==> #[trigger] s[j].0 != a,
            decreases s.len() - i,
        {
            i = i + 1;
        }
        let found = i < self.plain_accounts.len();
        proof {
            assert forall|e: (Address, Account)| s.contains(e) && e.0 == a implies found && e == s[i as int] by {
                let j = choose|j: int| 0 <= j < s.len() && s[j] == e;
                if j != i {
                    assert(s[j].0 != s[i as int].0);
                }
            }
        }
        match info {
            Some(acc) => {
                if found {
                    self.plain_accounts.set(i, (a, acc));
                    proof {
                        let t = self.plain_accounts@;
                        assert(t == s.update(i as int, (a, acc)));
                        assert forall|e: (Address, Account)| #[trigger] t.contains(e) <==> ((s.contains(e) && e.0 != a) || e == (a, acc)) by {
                            if t.contains(e) {
                                let j = choose|j: int| 0 <= j < t.len() && t[j] == e;
                                if j != i {
                                    assert(s[j] == e);
                                }
                            }
                            if s.contains(e) && e.0 != a {
                                let j = choose|j: int| 0 <= j < s.len() && s[j] == e;
                                assert(t[j] == e);
                            }
                            if e == (a, acc) {
                                assert(t[i as int] == e);
                            }
                        }
                    }
                } else {
                    self.plain_accounts.push((a, acc));
                    proof {
                        let t = self.plain_accounts@;
                        assert(t == s.push((a, acc)));
                        assert forall|e: (Address, Account)| #[trigger] t.contains(e) <==> ((s.contains(e) && e.0 != a) || e == (a, acc)) by {
                            if t.contains(e) {
                                let j = choose|j: int| 0 <= j < t.len() && t[j] == e;
                                if j < s.len() {
                                    assert(s[j] == e);
                                }
                            }
                            if s.contains(e) && e.0 != a {
                                let j = choose|j: int| 0 <= j < s.len() && s[j] == e;
                                assert(t[j] == e);
                            }
                            if e == (a, acc) {
                                assert(t[s.len() as int] == e);
                            }
                        }
                    }
                }
            },
            None => {
                if found {
                    self.plain_accounts.remove(i);
                    proof {
                        let t = self.plain_accounts@;
                        assert(t == s.remove(i as int));
                        assert forall|e: (Address, Account)| #[trigger] t.contains(e) <==> (s.contains(e) && e.0 != a) by {
                            if t.contains(e) {
                                let j = choose|j: int| 0 <= j < t.len() && t[j] == e;
                                if j < i {
                                    assert(s[j] == e);
                                    assert(s[j].0 != s[i as int].0);
                                } else {
                                    assert(s[j + 1] == e);
                                    assert(s[i as int].0 != s[j + 1].0);
                                }
                            }
                            if s.contains(e) && e.0 != a {
                                let j = choose|j: int| 0 <= j < s.len() && s[j] == e;
                                if j < i {
                                    assert(t[j] == e);
                                } else {
                                    assert(t[j - 1] == e);
                                }
                            }
                        }
                    }
                }
            },
        }
        proof {
            let t = self.plain_accounts@;
            assert forall|p: int, q: int| 0 <= p < q < t.len() implies #[trigger] t[p].0 != #[trigger] t[q].0 by {
                if info is Some && found {
                    if p != i && q != i {
                        assert(s[p].0 != s[q].0);
                    } else if p == i {
                        assert(s[q].0 != s[i as int].0);
                    } else {
                        assert(s[p].0 != s[i as int].0);
                    }
                } else if info is Some {
                    if q == s.len() {
                        assert(s[p].0 != a);
                    } else {
                        assert(s[p].0 != s[q].0);
                    }
                } else if found {
                    if q < i {
                        assert(s[p].0 != s[q].0);
                    } else if p < i {
                        assert(s[p].0 != s[q + 1].0);
                    } else {
                        assert(s[p + 1].0 != s[q + 1].0);
                    }
                } else {
                    assert(s[p].0 != s[q].0);
                }
            }
        }
    }

    /// Writes code under its hash, replacing what was there.
    pub fn put_bytecode(&mut self, h: H256, code: Bytecode)
        requires
            old(self).wf(),
        ensures
            final(self).wf(),
            final(self).plain_accounts == old(self).plain_accounts,
            final(self).plain_storage == old(self).plain_storage,
            final(self).account_changesets == old(self).account_changesets,
            final(self).storage_changesets == old(self).storage_changesets,
            final(self).receipts == old(self).receipts,
            exists|i: int| 0 <= i < final(self).bytecodes@.len() && #[trigger] final(self).bytecodes@[i].0 == h
                && final(self).bytecodes@[i].1.0@ == code.0@,
            forall|i: int| 0 <= i < old(self).bytecodes@.len() && #[trigger] old(self).bytecodes@[i].0 != h
                ==> final(self).bytecodes@.contains(old(self).bytecodes@[i]),
            forall|i: int| 0 <= i < final(self).bytecodes@.len() && #[trigger] final(self).bytecodes@[i].0 != h
                ==> old(self).bytecodes@.contains(final(self).bytecodes@[i]),
    {
        let ghost s = self.bytecodes@;
        let ghost c = code.0@;
        let mut i: usize = 0;
        while i < self.bytecodes.len() && self.bytecodes[i].0 != h
            invariant
                s == self.bytecodes@,
                i <= s.len(),
                forall|j: int| 0 <= j < i ==> #[trigger] s[j].0 != h,
            decreases s.len() - i,
        {
            i = i + 1;
        }
        if i < self.bytecodes.len() {
            self.bytecodes.remove(i);
            proof {
                let t = self.bytecodes@;
                assert(t == s.remove(i as int));
                assert forall|j: int| 0 <= j < s.len() && #[trigger] s[j].0 != h implies t.contains(s[j]) by {
                    if j < i {
                        assert(t[j] == s[j]);
                    } else {
                        assert(t[j - 1] == s[j]);
                    }
                }
                assert forall|j: int| 0 <= j < t.len() implies #[trigger] t[j].0 != h && s.contains(t[j]) by {
                    if j < i {
                        assert(t[j] == s[j]);
                    } else {
                        assert(t[j] == s[j + 1]);
                        assert(s[i as int].0 != s[j + 1].0);
                    }
                }
            }
        }
        let ghost t = self.bytecodes@;
        assert(forall|j: int| 0 <= j < t.len() ==> #[trigger] t[j].0 != h && s.contains(t[j]));
        assert(forall|j: int, k: int| 0 <= j < k < t.len() ==> #[trigger] t[j].0 != #[trigger] t[k].0) by {
            assert forall|j: int, k: int| 0 <= j < k < t.len() implies #[trigger] t[j].0 != #[trigger] t[k].0 by {
                if i < s.len() {
                    if k < i {
                        assert(s[j].0 != s[k].0);
                    } else if j < i {
                        assert(t[k] == s[k + 1]);
                        assert(s[j].0 != s[k + 1].0);
                    } else {
                        assert(t[j] == s[j + 1]);
                        assert(t[k] == s[k + 1]);
                        assert(s[j + 1].0 != s[k + 1].0);
                    }
                } else {
                    assert(s[j].0 != s[k].0);
                }
            }
        }
        self.bytecodes.push((h, code));
        proof {
            let u = self.bytecodes@;
            assert(u == t.push((h, code)));
            assert(u[t.len() as int].0 == h);
            assert forall|j: int| 0 <= j < s.len() && #[trigger] s[j].0 != h implies u.contains(s[j]) by {
                if i < s.len() {
                    let jj = if j < i { j } else { j - 1 };
                    assert(u[jj] == s[j]);
                } else {
                    assert(u[j] == s[j]);
                }
            }
            assert forall|j: int| 0 <= j < u.len() && #[trigger] u[j].0 != h implies s.contains(u[j]) by {
                assert(u[j] == t[j]);
            }
        }
    }

    /// Appends a receipt at the next global index.
    pub fn append_receipt(&mut self, receipt: Receipt)
        ensures
            final(self).receipts@ == old(self).receipts@.push(receipt),
            final(self).plain_accounts == old(self).plain_accounts,
            final(self).plain_storage == old(self).plain_storage,
            final(self).account_changesets == old(self).account_changesets,
            final(self).storage_changesets == old(self).storage_changesets,
            final(self).bytecodes == old(self).bytecodes,
    {
        self.receipts.push(receipt);
    }
}

} // verus!
