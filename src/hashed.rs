//! The hashed projection of the aggregated state: touched accounts and slots
//! keyed by the Keccak-256 of their address and slot key, sorted by hash.
use vstd::prelude::*;
use tiny_keccak::Hasher;
use crate::types::{Account, Address, U256};
use crate::state::{BundleAccount, StorageSlot, account_map, find_account, find_slot, is_last_account, is_last_slot,
    lemma_account_map_contains, lemma_account_map_last, lemma_slot_map_contains, lemma_slot_map_last, slot_map};
use crate::bundle::BundleState;

verus! {

/// The Keccak-256 digest of a byte string, read as a big-endian word.
pub uninterp spec fn keccak_word(data: Seq<u8>) -> U256;

/// The `n` low bytes of `v`, most significant first.
pub open spec fn be_bytes(v: nat, n: nat) -> Seq<u8>
    decreases n,
{
    if n == 0 {
        Seq::empty()
    } else {
        be_bytes(v / 256, (n - 1) as nat).push((v % 256) as u8)
    }
}

/// An address as its twenty bytes, most significant first.
pub open spec fn address_bytes(a: Address) -> Seq<u8> {
    be_bytes(a.hi as nat, 4) + be_bytes(a.lo as nat, 16)
}

/// A word as its thirty-two bytes, most significant first.
pub open spec fn word_bytes(w: U256) -> Seq<u8> {
    be_bytes(w.hi as nat, 16) + be_bytes(w.lo as nat, 16)
}

/// Relies on tiny_keccak's `Keccak::v256` (update, then finalize into 32
/// bytes): the digest depends on the input bytes alone.
#[verifier::external_body]
fn keccak256(data: &[u8]) -> (r: U256)
    ensures
        r == keccak_word(data@),
{
    let mut buf = [0u8; 32];
    let mut hasher = tiny_keccak::Keccak::v256();
    hasher.update(data);
    hasher.finalize(&mut buf);
    let mut hi = [0u8; 16];
    let mut lo = [0u8; 16];
    hi.copy_from_slice(&buf[..16]);
    lo.copy_from_slice(&buf[16..]);
    U256 { hi: u128::from_be_bytes(hi), lo: u128::from_be_bytes(lo) }
}

/// The `n` low bytes of `v`, most significant first.
fn be_bytes_of(v: u128, n: usize) -> (r: Vec<u8>)
    ensures
        r@ == be_bytes(v as nat, n as nat),
    decreases n,
{
    if n == 0 {
        Vec::new()
    } else {
        let mut r = be_bytes_of(v / 256, n - 1);
        r.push((v % 256) as u8);
        r
    }
}

/// Appends the bytes of `b` to `out`.
fn push_all(out: &mut Vec<u8>, b: &[u8])
    ensures
        final(out)@ == old(out)@ + b@,
{
    let ghost start = out@;
    let mut i: usize = 0;
    while i < b.len()
        invariant
            i <= b@.len(),
            out@ == start + b@.take(i as int),
        decreases b@.len() - i,
    {
        out.push(b[i]);
        assert(b@.take(i + 1) == b@.take(i as int).push(b@[i as int]));
        i = i + 1;
    }
    assert(b@.take(i as int) == b@);
}

/// The hashed key of an address.
pub open spec fn hashed_address(a: Address) -> U256 {
    keccak_word(address_bytes(a))
}

/// The hashed key of a storage slot.
pub open spec fn hashed_slot_key(k: U256) -> U256 {
    keccak_word(word_bytes(k))
}

/// Hashes an address.
pub fn hash_address(a: &Address) -> (r: U256)
    ensures
        r == hashed_address(*a),
{
    let mut bytes: Vec<u8> = Vec::new();
    let hi = be_bytes_of(a.hi as u128, 4);
    push_all(&mut bytes, hi.as_slice());
    let lo = be_bytes_of(a.lo, 16);
    push_all(&mut bytes, lo.as_slice());
    keccak256(bytes.as_slice())
}

/// Hashes a slot key.
pub fn hash_slot_key(k: &U256) -> (r: U256)
    ensures
        r == hashed_slot_key(*k),
{
    let mut bytes: Vec<u8> = Vec::new();
    let hi = be_bytes_of(k.hi, 16);
    push_all(&mut bytes, hi.as_slice());
    let lo = be_bytes_of(k.lo, 16);
    push_all(&mut bytes, lo.as_slice());
    keccak256(bytes.as_slice())
}

/// A touched account under its hashed address: its present value (`None`:
/// cleared) and whether its storage was wiped.
#[derive(Clone, Copy, Debug, PartialEq, Eq, Structural)]
pub struct HashedAccount {
    pub hashed_address: U256,
    pub info: Option<Account>,
    pub wiped: bool,
}

/// A touched slot under its hashed address and hashed key; a zero value
/// marks a cleared slot.
#[derive(Clone, Copy, Debug, PartialEq, Eq, Structural)]
pub struct HashedSlot {
    pub hashed_address: U256,
    pub hashed_key: U256,
    pub value: U256,
}

/// The hashed projection: accounts ascending by hashed address, slots by
/// hashed address and then hashed key.
#[derive(Debug)]
pub struct HashedPostState {
    pub accounts: Vec<HashedAccount>,
    pub storage: Vec<HashedSlot>,
}

/// The projection entry of a tracked account.
pub open spec fn hashed_account_of(x: BundleAccount) -> HashedAccount {
    HashedAccount { hashed_address: hashed_address(x.address), info: x.info, wiped: x.status.destroyed() }
}

/// The projection entry of a tracked slot.
pub open spec fn hashed_slot_of(x: StorageSlot) -> HashedSlot {
    HashedSlot { hashed_address: hashed_address(x.address), hashed_key: hashed_slot_key(x.key), value: x.present_value }
}

/// Slot `x` sorts no later than slot `y`.
pub open spec fn hashed_slot_le(x: HashedSlot, y: HashedSlot) -> bool {
    x.hashed_address@ < y.hashed_address@ || (x.hashed_address@ == y.hashed_address@ && x.hashed_key@ <= y.hashed_key@)
}

/// Inserts an account entry after every entry with a smaller or equal hash.
fn insert_account_sorted(out: &mut Vec<HashedAccount>, x: HashedAccount)
    requires
        forall|i: int, j: int| 0 <= i < j < old(out)@.len() ==> #[trigger] old(out)@[i].hashed_address@ <= #[trigger] old(out)@[j].hashed_address@,
    ensures
        forall|i: int, j: int| 0 <= i < j < final(out)@.len() ==> #[trigger] final(out)@[i].hashed_address@ <= #[trigger] final(out)@[j].hashed_address@,
        forall|e: HashedAccount| #[trigger] final(out)@.contains(e) <==> (old(out)@.contains(e) || e == x),
        old(out)@.no_duplicates() ==> final(out)@.no_duplicates(),
{
    let ghost s = out@;
    let mut q: usize = 0;
    while q < out.len()
        invariant
            s == out@,
            q <= s.len(),
            forall|j: int| 0 <= j < q ==> #[trigger] s[j] != x,
            forall|i: int, j: int| 0 <= i < j < s.len() ==> #[trigger] s[i].hashed_address@ <= #[trigger] s[j].hashed_address@,
        decreases s.len() - q,
    {
        if out[q] == x {
            return;
        }
        q = q + 1;
    }
    let mut p: usize = 0;
    while p < out.len() && !x.hashed_address.lt(&out[p].hashed_address)
        invariant
            s == out@,
            p <= s.len(),
            forall|j: int| 0 <= j < p ==> #[trigger] s[j].hashed_address@ <= x.hashed_address@,
        decreases s.len() - p,
    {
        p = p + 1;
    }
    out.insert(p, x);
    proof {
        let t = out@;
        assert(t == s.insert(p as int, x));
        assert forall|i: int, j: int| 0 <= i < j < t.len() implies #[trigger] t[i].hashed_address@ <= #[trigger] t[j].hashed_address@ by {
            if p < s.len() {
                assert(x.hashed_address@ < s[p as int].hashed_address@);
            }
            if j < p {
            } else if j == p {
            } else if i < p {
                assert(s[p as int].hashed_address@ <= s[j - 1].hashed_address@ || j - 1 == p);
            } else if i == p {
                assert(s[p as int].hashed_address@ <= s[j - 1].hashed_address@ || j - 1 == p);
            } else {
                assert(s[i - 1].hashed_address@ <= s[j - 1].hashed_address@);
            }
        }
        assert forall|a: int, b: int| 0 <= a < t.len() && 0 <= b < t.len() && a != b && s.no_duplicates() implies t[a] != t[b] by {
            let a1 = if a < p { a } else { a - 1 };
            let b1 = if b < p { b } else { b - 1 };
            if a != p && b != p {
                assert(t[a] == s[a1] && t[b] == s[b1]);
            } else if a == p {
                assert(t[b] == s[b1]);
            } else {
                assert(t[a] == s[a1]);
            }
        }
        assert forall|e: HashedAccount| #[trigger] t.contains(e) <==> (s.contains(e) || e == x) by {
            if t.contains(e) {
                let i = choose|i: int| 0 <= i < t.len() && t[i] == e;
                if i < p {
                    assert(s[i] == e);
                } else if i > p {
                    assert(s[i - 1] == e);
                }
            }
            if s.contains(e) {
                let i = choose|i: int| 0 <= i < s.len() && s[i] == e;
                if i < p {
                    assert(t[i] == e);
                } else {
                    assert(t[i + 1] == e);
                }
            }
            if e == x {
                assert(t[p as int] == e);
            }
        }
    }
}

/// Inserts a slot entry after every entry that sorts no later.
fn insert_slot_sorted(out: &mut Vec<HashedSlot>, x: HashedSlot)
    requires
        forall|i: int, j: int| 0 <= i < j < old(out)@.len() ==> hashed_slot_le(#[trigger] old(out)@[i], #[trigger] old(out)@[j]),
    ensures
        forall|i: int, j: int| 0 <= i < j < final(out)@.len() ==> hashed_slot_le(#[trigger] final(out)@[i], #[trigger] final(out)@[j]),
        forall|e: HashedSlot| #[trigger] final(out)@.contains(e) <==> (old(out)@.contains(e) || e == x),
        old(out)@.no_duplicates() ==> final(out)@.no_duplicates(),
{
    let ghost s = out@;
    let mut q: usize = 0;
    while q < out.len()
        invariant
            s == out@,
            q <= s.len(),
            forall|j: int| 0 <= j < q ==> #[trigger] s[j] != x,
            forall|i: int, j: int| 0 <= i < j < s.len() ==> hashed_slot_le(#[trigger] s[i], #[trigger] s[j]),
        decreases s.len() - q,
    {
        if out[q] == x {
            return;
        }
        q = q + 1;
    }
    let mut p: usize = 0;
    while p < out.len() && hashed_le(&out[p], &x)
        invariant
            s == out@,
            p <= s.len(),
            forall|j: int| 0 <= j < p ==> hashed_slot_le(#[trigger] s[j], x),
        decreases s.len() - p,
    {
        p = p + 1;
    }
    out.insert(p, x);
    proof {
        let t = out@;
        assert(t == s.insert(p as int, x));
        assert forall|i: int, j: int| 0 <= i < j < t.len() implies hashed_slot_le(#[trigger] t[i], #[trigger] t[j]) by {
            if j < p {
            } else if j == p {
            } else if i < p {
                assert(hashed_slot_le(s[p as int], s[j - 1]) || j - 1 == p);
            } else if i == p {
                assert(hashed_slot_le(s[p as int], s[j - 1]) || j - 1 == p);
            } else {
                assert(hashed_slot_le(s[i - 1], s[j - 1]));
            }
        }
        assert forall|a: int, b: int| 0 <= a < t.len() && 0 <= b < t.len() && a != b && s.no_duplicates() implies t[a] != t[b] by {
            let a1 = if a < p { a } else { a - 1 };
            let b1 = if b < p { b } else { b - 1 };
            if a != p && b != p {
                assert(t[a] == s[a1] && t[b] == s[b1]);
            } else if a == p {
                assert(t[b] == s[b1]);
            } else {
                assert(t[a] == s[a1]);
            }
        }
        assert forall|e: HashedSlot| #[trigger] t.contains(e) <==> (s.contains(e) || e == x) by {
            if t.contains(e) {
                let i = choose|i: int| 0 <= i < t.len() && t[i] == e;
                if i < p {
                    assert(s[i] == e);
                } else if i > p {
                    assert(s[i - 1] == e);
                }
            }
            if s.contains(e) {
                let i = choose|i: int| 0 <= i < s.len() && s[i] == e;
                if i < p {
                    assert(t[i] == e);
                } else {
                    assert(t[i + 1] == e);
                }
            }
            if e == x {
                assert(t[p as int] == e);
            }
        }
    }
}

/// Whether slot entry `a` sorts no later than `b`.
fn hashed_le(a: &HashedSlot, b: &HashedSlot) -> (r: bool)
    ensures
        r == hashed_slot_le(*a, *b),
{
    a.hashed_address.lt(&b.hashed_address) || (!b.hashed_address.lt(&a.hashed_address) && !b.hashed_key.lt(&a.hashed_key))
}

impl BundleState {
    /// The hashed projection of every tracked account and slot, sorted by
    /// hashed key; an account's entry says whether its storage was wiped.
    pub fn hash_state_slow(&self) -> (r: HashedPostState)
        ensures
            forall|i: int, j: int| 0 <= i < j < r.accounts@.len() ==> #[trigger] r.accounts@[i].hashed_address@ <= #[trigger] r.accounts@[j].hashed_address@,
            forall|i: int, j: int| 0 <= i < j < r.storage@.len() ==> hashed_slot_le(#[trigger] r.storage@[i], #[trigger] r.storage@[j]),
            r.accounts@.no_duplicates(),
            r.storage@.no_duplicates(),
            forall|e: HashedAccount| #[trigger] r.accounts@.contains(e) <==> exists|x: Address|
                #[trigger] account_map(self.accounts@).contains_key(x) && e == hashed_account_of(account_map(self.accounts@)[x]),
            forall|e: HashedSlot| #[trigger] r.storage@.contains(e) <==> exists|k: (Address, U256)|
                #[trigger] slot_map(self.storage@).contains_key(k) && e == hashed_slot_of(slot_map(self.storage@)[k]),
    {
        let s = &self.accounts;
        let mut accounts: Vec<HashedAccount> = Vec::new();
        let mut i: usize = 0;
        while i < s.len()
            invariant
                i <= s@.len(),
                forall|a: int, b: int| 0 <= a < b < accounts@.len() ==> #[trigger] accounts@[a].hashed_address@ <= #[trigger] accounts@[b].hashed_address@,
                accounts@.no_duplicates(),
                forall|e: HashedAccount| #[trigger] accounts@.contains(e) <==> exists|j: int|
                    0 <= j < i && is_last_account(s@, j) && e == hashed_account_of(#[trigger] s@[j]),
            decreases s@.len() - i,
        {
            let x = s[i];
            let found = find_account(s, &x.address);
            if let Some(p) = found {
                if p == i {
                    let h = hash_address(&x.address);
                    let e = HashedAccount { hashed_address: h, info: x.info, wiped: x.status.was_destroyed() };
                    insert_account_sorted(&mut accounts, e);
                }
            }
            proof {
                lemma_account_map_contains(s@, x.address);
                let last = found == Some(i);
                if let Some(p) = found {
                    if p != i {
                        assert(s@[p as int].address == s@[i as int].address);
                    }
                }
                assert(last == is_last_account(s@, i as int));
                assert forall|e: HashedAccount| #[trigger] accounts@.contains(e) <==> exists|j: int|
                    0 <= j < i + 1 && is_last_account(s@, j) && e == hashed_account_of(#[trigger] s@[j]) by {
                    if last && e == hashed_account_of(s@[i as int]) {
                        assert(0 <= i < i + 1 && is_last_account(s@, i as int) && e == hashed_account_of(s@[i as int]));
                    }
                }
            }
            i = i + 1;
        }
        proof {
            assert forall|e: HashedAccount| #[trigger] accounts@.contains(e) <==> exists|x: Address|
                #[trigger] account_map(s@).contains_key(x) && e == hashed_account_of(account_map(s@)[x]) by {
                if accounts@.contains(e) {
                    let j = choose|j: int| 0 <= j < i && is_last_account(s@, j) && e == hashed_account_of(#[trigger] s@[j]);
                    lemma_account_map_last(s@, j);
                    assert(account_map(s@).contains_key(s@[j].address));
                }
                if exists|x: Address| #[trigger] account_map(s@).contains_key(x) && e == hashed_account_of(account_map(s@)[x]) {
                    let x = choose|x: Address| #[trigger] account_map(s@).contains_key(x) && e == hashed_account_of(account_map(s@)[x]);
                    lemma_account_map_contains(s@, x);
                    let j = choose|j: int| 0 <= j < s@.len() && #[trigger] s@[j].address == x && is_last_account(s@, j) && s@[j] == account_map(s@)[x];
                    assert(e == hashed_account_of(s@[j]));
                }
            }
        }
        let t = &self.storage;
        let mut storage: Vec<HashedSlot> = Vec::new();
        let mut i: usize = 0;
        while i < t.len()
            invariant
                i <= t@.len(),
                forall|a: int, b: int| 0 <= a < b < storage@.len() ==> hashed_slot_le(#[trigger] storage@[a], #[trigger] storage@[b]),
                storage@.no_duplicates(),
                forall|e: HashedSlot| #[trigger] storage@.contains(e) <==> exists|j: int|
                    0 <= j < i && is_last_slot(t@, j) && e == hashed_slot_of(#[trigger] t@[j]),
            decreases t@.len() - i,
        {
            let x = t[i];
            let found = find_slot(t, &x.address, &x.key);
            if let Some(p) = found {
                if p == i {
                    let ha = hash_address(&x.address);
                    let hk = hash_slot_key(&x.key);
                    insert_slot_sorted(&mut storage, HashedSlot { hashed_address: ha, hashed_key: hk, value: x.present_value });
                }
            }
            proof {
                lemma_slot_map_contains(t@, x.address, x.key);
                let last = found == Some(i);
                if let Some(p) = found {
                    if p != i {
                        assert(t@[p as int].address == t@[i as int].address && t@[p as int].key == t@[i as int].key);
                    }
                }
                assert(last == is_last_slot(t@, i as int));
                assert forall|e: HashedSlot| #[trigger] storage@.contains(e) <==> exists|j: int|
                    0 <= j < i + 1 && is_last_slot(t@, j) && e == hashed_slot_of(#[trigger] t@[j]) by {
                    if last && e == hashed_slot_of(t@[i as int]) {
                        assert(0 <= i < i + 1 && is_last_slot(t@, i as int) && e == hashed_slot_of(t@[i as int]));
                    }
                }
            }
            i = i + 1;
        }
        proof {
            assert forall|e: HashedSlot| #[trigger] storage@.contains(e) <==> exists|k: (Address, U256)|
                #[trigger] slot_map(t@).contains_key(k) && e == hashed_slot_of(slot_map(t@)[k]) by {
                if storage@.contains(e) {
                    let j = choose|j: int| 0 <= j < i && is_last_slot(t@, j) && e == hashed_slot_of(#[trigger] t@[j]);
                    lemma_slot_map_last(t@, j);
                    assert(slot_map(t@).contains_key((t@[j].address, t@[j].key)));
                }
                if exists|k: (Address, U256)| #[trigger] slot_map(t@).contains_key(k) && e == hashed_slot_of(slot_map(t@)[k]) {
                    let k = choose|k: (Address, U256)| #[trigger] slot_map(t@).contains_key(k) && e == hashed_slot_of(slot_map(t@)[k]);
                    lemma_slot_map_contains(t@, k.0, k.1);
                    let j = choose|j: int| 0 <= j < t@.len() && #[trigger] t@[j].address == k.0 && t@[j].key == k.1 && is_last_slot(t@, j) && t@[j] == slot_map(t@)[k];
                    assert(e == hashed_slot_of(t@[j]));
                }
            }
        }
        HashedPostState { accounts, storage }
    }
}

} // verus!
