//! Primitive values: 256-bit words, 160-bit addresses, accounts, receipts.
use vstd::prelude::*;

verus! {

/// A 256-bit unsigned word, held as two 128-bit halves.
#[derive(Clone, Copy, Debug, PartialEq, Eq, Structural)]
pub struct U256 {
    pub hi: u128,
    pub lo: u128,
}

/// A 256-bit hash (code hashes, hashed keys).
pub type H256 = U256;

/// A block number.
pub type BlockNumber = u64;

impl U256 {
    /// The number the word stands for.
    pub open spec fn view(&self) -> nat {
        (self.hi as int * half_base() + self.lo as int) as nat
    }

    pub fn zero() -> (r: U256)
        ensures
            r@ == 0,
            r == (U256 { hi: 0, lo: 0 }),
    {
        U256 { hi: 0, lo: 0 }
    }

    pub fn from_u128(v: u128) -> (r: U256)
        ensures
            r@ == v as nat,
    {
        U256 { hi: 0, lo: v }
    }

    pub fn is_zero(&self) -> (r: bool)
        ensures
            r == (self@ == 0),
    {
        proof {
            lemma_u256_view_injective(*self, U256 { hi: 0, lo: 0 });
        }
        self.hi == 0 && self.lo == 0
    }

    /// Strict order of words, by value.
    pub fn lt(&self, other: &U256) -> (r: bool)
        ensures
            r == (self@ < other@),
    {
        proof {
            lemma_u256_order(*self, *other);
        }
        self.hi < other.hi || (self.hi == other.hi && self.lo < other.lo)
    }
}

/// 2^128, the base of a word's halves.
pub open spec fn half_base() -> int {
    0x1_0000_0000_0000_0000int * 0x1_0000_0000_0000_0000int
}

/// Every 128-bit half lies below the base.
pub proof fn lemma_half_base()
    ensures
        half_base() == 0xffff_ffff_ffff_ffff_ffff_ffff_ffff_ffff + 1,
{
    assert(half_base() == 0xffff_ffff_ffff_ffff_ffff_ffff_ffff_ffff + 1) by (nonlinear_arith);
}

/// Two words with the same value are the same word.
pub proof fn lemma_u256_view_injective(a: U256, b: U256)
    ensures
        a@ == b@ <==> a == b,
{
    lemma_u256_order(a, b);
    lemma_u256_order(b, a);
}

/// The value order of words is the order of their halves, high half first.
pub proof fn lemma_u256_order(a: U256, b: U256)
    ensures
        (a@ < b@) == (a.hi < b.hi || (a.hi == b.hi && a.lo < b.lo)),
{
    let m: int = half_base();
    lemma_half_base();
    let (ah, al, bh, bl) = (a.hi as int, a.lo as int, b.hi as int, b.lo as int);
    assert(0 <= al < m && 0 <= bl < m);
    if ah < bh {
        assert(ah * m + al < bh * m + bl) by (nonlinear_arith)
            requires ah < bh, 0 <= al < m, 0 <= bl < m, m > 0;
    } else if ah > bh {
        assert(ah * m + al > bh * m + bl) by (nonlinear_arith)
            requires ah > bh, 0 <= al < m, 0 <= bl < m, m > 0;
    }
}

/// The value order of addresses is the order of their parts, high part first.
pub proof fn lemma_address_order(a: Address, b: Address)
    ensures
        (a@ < b@) == (a.hi < b.hi || (a.hi == b.hi && a.lo < b.lo)),
        (a@ == b@) == (a == b),
{
    let m: int = half_base();
    lemma_half_base();
    let (ah, al, bh, bl) = (a.hi as int, a.lo as int, b.hi as int, b.lo as int);
    assert(0 <= al < m && 0 <= bl < m);
    if ah < bh {
        assert(ah * m + al < bh * m + bl) by (nonlinear_arith)
            requires ah < bh, 0 <= al < m, 0 <= bl < m, m > 0;
    } else if ah > bh {
        assert(ah * m + al > bh * m + bl) by (nonlinear_arith)
            requires ah > bh, 0 <= al < m, 0 <= bl < m, m > 0;
    }
}

/// A 160-bit account address, held as a 32-bit high part and a 128-bit low part.
#[derive(Clone, Copy, Debug, PartialEq, Eq, Structural)]
pub struct Address {
    pub hi: u32,
    pub lo: u128,
}

impl Address {
    /// The number the address stands for.
    pub open spec fn view(&self) -> nat {
        (self.hi as int * half_base() + self.lo as int) as nat
    }

    pub fn from_u128(v: u128) -> (r: Address)
        ensures
            r@ == v as nat,
    {
        Address { hi: 0, lo: v }
    }

    /// Strict order of addresses, by value.
    pub fn lt(&self, other: &Address) -> (r: bool)
        ensures
            r == (self@ < other@),
    {
        proof {
            lemma_address_order(*self, *other);
        }
        self.hi < other.hi || (self.hi == other.hi && self.lo < other.lo)
    }
}

/// An account's fields (its storage root is kept elsewhere).
#[derive(Clone, Copy, Debug, PartialEq, Eq, Structural)]
pub struct Account {
    pub nonce: u64,
    pub balance: U256,
    pub code_hash: H256,
}

/// Where an account stands over the aggregated range.
#[derive(Clone, Copy, Debug, PartialEq, Eq, Structural)]
pub enum AccountStatus {
    Unchanged,
    Created,
    Changed,
    Destroyed,
    DestroyedAndRecreated,
}

impl AccountStatus {
    /// Whether the account's persisted storage was destroyed within the range.
    pub open spec fn destroyed(self) -> bool {
        self is Destroyed || self is DestroyedAndRecreated
    }

    pub fn was_destroyed(&self) -> (r: bool)
        ensures
            r == self.destroyed(),
    {
        match self {
            AccountStatus::Destroyed | AccountStatus::DestroyedAndRecreated => true,
            _ => false,
        }
    }
}

/// Contract code, addressed by its hash.
#[derive(Debug)]
pub struct Bytecode(pub Vec<u8>);

impl Bytecode {
    pub fn duplicate(&self) -> (r: Bytecode)
        ensures
            r.0@ == self.0@,
    {
        let r = self.0.clone();
        assert(r@ =~= self.0@);
        Bytecode(r)
    }
}

/// A log entry emitted during execution.
#[derive(Debug)]
pub struct Log {
    pub address: Address,
    pub topics: Vec<H256>,
    pub data: Vec<u8>,
}

/// The receipt of one transaction.
#[derive(Debug)]
pub struct Receipt {
    pub success: bool,
    pub cumulative_gas_used: u64,
    pub logs: Vec<Log>,
}

} // verus!

verus! {

/// One storage slot: its key and its value.
#[derive(Clone, Copy, Debug, PartialEq, Eq, Structural)]
pub struct StorageEntry {
    pub key: U256,
    pub value: U256,
}

/// Keys strictly ascend along the sequence (so each key occurs once).
pub open spec fn keys_ascending(s: Seq<StorageEntry>) -> bool {
    forall|i: int, j: int| 0 <= i < j < s.len() ==> #[trigger] s[i].key@ < #[trigger] s[j].key@
}

/// Some entry of the sequence has this key.
pub open spec fn has_key(s: Seq<StorageEntry>, k: nat) -> bool {
    exists|i: int| 0 <= i < s.len() && #[trigger] s[i].key@ == k
}

/// The entry is one of the sequence's.
pub open spec fn has_entry(s: Seq<StorageEntry>, e: StorageEntry) -> bool {
    exists|i: int| 0 <= i < s.len() && #[trigger] s[i] == e
}

} // verus!
