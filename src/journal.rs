//! The revert journal: per block, the prior values of what each block touched,
//! and how it becomes change-sets when written to the store.
use vstd::prelude::*;
use crate::types::{Address, has_entry, has_key, keys_ascending, BlockNumber, StorageEntry};
use crate::state::{AccountInfoRevert, AccountRevert, copy_entries};
use crate::store::{AccountBeforeTx, PlainSlot, StorageBeforeTx, Store, slots_of};

verus! {

/// The ordered merge of two key-ascending slot lists: the smaller key goes
/// first, and on equal keys the entry of `r` is kept and the one of `w` dropped.
pub open spec fn merge_spec(w: Seq<StorageEntry>, r: Seq<StorageEntry>) -> Seq<StorageEntry>
    decreases w.len() + r.len(),
{
    if w.len() == 0 {
        r
    } else if r.len() == 0 {
        w
    } else if w[0].key@ < r[0].key@ {
        seq![w[0]] + merge_spec(w.drop_first(), r)
    } else if r[0].key@ < w[0].key@ {
        seq![r[0]] + merge_spec(w, r.drop_first())
    } else {
        seq![r[0]] + merge_spec(w.drop_first(), r.drop_first())
    }
}

/// The ordered merge ascends, holds every key of either list once, keeps
/// every entry of `r`, and keeps an entry of `w` exactly when `r` lacks its key.
pub proof fn lemma_merge_spec(w: Seq<StorageEntry>, r: Seq<StorageEntry>)
    requires
        keys_ascending(w),
        keys_ascending(r),
    ensures
        keys_ascending(merge_spec(w, r)),
        forall|k: nat| has_key(merge_spec(w, r), k) <==> (has_key(w, k) || has_key(r, k)),
        forall|e: StorageEntry| has_entry(merge_spec(w, r), e) ==> (has_entry(r, e) || (has_entry(w, e) && !has_key(r, e.key@))),
        forall|e: StorageEntry| has_entry(r, e) ==> has_entry(merge_spec(w, r), e),
        forall|e: StorageEntry| has_entry(w, e) && !has_key(r, e.key@) ==> has_entry(merge_spec(w, r), e),
    decreases w.len() + r.len(),
{
    if w.len() > 0 && r.len() > 0 {
        let (w1, r1) = (w.drop_first(), r.drop_first());
        assert(keys_ascending(w1)) by {
            assert forall|i: int, j: int| 0 <= i < j < w1.len() implies #[trigger] w1[i].key@ < #[trigger] w1[j].key@ by {
                assert(w[i + 1].key@ < w[j + 1].key@);
            }
        }
        assert(keys_ascending(r1)) by {
            assert forall|i: int, j: int| 0 <= i < j < r1.len() implies #[trigger] r1[i].key@ < #[trigger] r1[j].key@ by {
                assert(r[i + 1].key@ < r[j + 1].key@);
            }
        }
        assert forall|e: StorageEntry| has_entry(w, e) <==> (e == w[0] || has_entry(w1, e)) by {
            if has_entry(w, e) {
                let i = choose|i: int| 0 <= i < w.len() && #[trigger] w[i] == e;
                if i > 0 { assert(w1[i - 1] == e); }
            }
            if has_entry(w1, e) {
                let i = choose|i: int| 0 <= i < w1.len() && #[trigger] w1[i] == e;
                assert(w[i + 1] == e);
            }
        }
        assert forall|e: StorageEntry| has_entry(r, e) <==> (e == r[0] || has_entry(r1, e)) by {
            if has_entry(r, e) {
                let i = choose|i: int| 0 <= i < r.len() && #[trigger] r[i] == e;
                if i > 0 { assert(r1[i - 1] == e); }
            }
            if has_entry(r1, e) {
                let i = choose|i: int| 0 <= i < r1.len() && #[trigger] r1[i] == e;
                assert(r[i + 1] == e);
            }
        }
        assert forall|k: nat| has_key(w, k) <==> (k == w[0].key@ || has_key(w1, k)) by {
            if has_key(w, k) {
                let i = choose|i: int| 0 <= i < w.len() && #[trigger] w[i].key@ == k;
                if i > 0 { assert(w1[i - 1].key@ == k); }
            }
            if has_key(w1, k) {
                let i = choose|i: int| 0 <= i < w1.len() && #[trigger] w1[i].key@ == k;
                assert(w[i + 1].key@ == k);
            }
        }
        assert forall|k: nat| has_key(r, k) <==> (k == r[0].key@ || has_key(r1, k)) by {
            if has_key(r, k) {
                let i = choose|i: int| 0 <= i < r.len() && #[trigger] r[i].key@ == k;
                if i > 0 { assert(r1[i - 1].key@ == k); }
            }
            if has_key(r1, k) {
                let i = choose|i: int| 0 <= i < r1.len() && #[trigger] r1[i].key@ == k;
                assert(r[i + 1].key@ == k);
            }
        }
        assert(forall|k: nat| has_key(w1, k) ==> w[0].key@ < k) by {
            assert forall|k: nat| has_key(w1, k) implies w[0].key@ < k by {
                let i = choose|i: int| 0 <= i < w1.len() && #[trigger] w1[i].key@ == k;
                assert(w[0].key@ < w[i + 1].key@);
            }
        }
        assert(forall|k: nat| has_key(r1, k) ==> r[0].key@ < k) by {
            assert forall|k: nat| has_key(r1, k) implies r[0].key@ < k by {
                let i = choose|i: int| 0 <= i < r1.len() && #[trigger] r1[i].key@ == k;
                assert(r[0].key@ < r[i + 1].key@);
            }
        }
        let (x, rest, ww, rr) = if w[0].key@ < r[0].key@ {
            (w[0], merge_spec(w1, r), w1, r)
        } else if r[0].key@ < w[0].key@ {
            (r[0], merge_spec(w, r1), w, r1)
        } else {
            (r[0], merge_spec(w1, r1), w1, r1)
        };
        lemma_merge_spec(ww, rr);
        let m = merge_spec(w, r);
        assert(m == seq![x] + rest);
        assert forall|e: StorageEntry| has_entry(m, e) <==> (e == x || has_entry(rest, e)) by {
            if has_entry(m, e) {
                let i = choose|i: int| 0 <= i < m.len() && #[trigger] m[i] == e;
                if i > 0 { assert(rest[i - 1] == e); }
            }
            if has_entry(rest, e) {
                let i = choose|i: int| 0 <= i < rest.len() && #[trigger] rest[i] == e;
                assert(m[i + 1] == e);
            }
            if e == x { assert(m[0] == e); }
        }
        assert forall|k: nat| has_key(m, k) <==> (k == x.key@ || has_key(rest, k)) by {
            if has_key(m, k) {
                let i = choose|i: int| 0 <= i < m.len() && #[trigger] m[i].key@ == k;
                if i > 0 { assert(rest[i - 1].key@ == k); }
            }
            if has_key(rest, k) {
                let i = choose|i: int| 0 <= i < rest.len() && #[trigger] rest[i].key@ == k;
                assert(m[i + 1].key@ == k);
            }
            if k == x.key@ { assert(m[0].key@ == k); }
        }
        assert forall|i: int, j: int| 0 <= i < j < m.len() implies #[trigger] m[i].key@ < #[trigger] m[j].key@ by {
            assert(has_key(rest, m[j].key@)) by { assert(rest[j - 1] == m[j]); }
            let k = m[j].key@;
            assert(has_key(ww, k) || has_key(rr, k));
            if i == 0 {
                assert(m[0] == x);
                if w[0].key@ < r[0].key@ {
                    if has_key(rr, k) && !has_key(r1, k) { assert(k == r[0].key@); }
                } else if r[0].key@ < w[0].key@ {
                    if has_key(ww, k) && !has_key(w1, k) { assert(k == w[0].key@); }
                }
            }
            if i > 0 {
                assert(rest[i - 1] == m[i] && rest[j - 1] == m[j]);
            }
        }
    } else if w.len() == 0 {
        assert(merge_spec(w, r) == r);
    } else {
        assert(merge_spec(w, r) == w);
    }
}

/// One step of the merge at positions `i` of `w` and `j` of `r`.
proof fn lemma_merge_step(w: Seq<StorageEntry>, r: Seq<StorageEntry>, i: int, j: int)
    requires
        0 <= i <= w.len(),
        0 <= j <= r.len(),
        i < w.len() || j < r.len(),
    ensures
        (i < w.len() && (j == r.len() || w[i].key@ < r[j].key@)) ==> merge_spec(w.skip(i), r.skip(j)) == seq![w[i]]
            + merge_spec(w.skip(i + 1), r.skip(j)),
        (j < r.len() && (i == w.len() || r[j].key@ < w[i].key@)) ==> merge_spec(w.skip(i), r.skip(j)) == seq![r[j]]
            + merge_spec(w.skip(i), r.skip(j + 1)),
        (i < w.len() && j < r.len() && w[i].key@ == r[j].key@) ==> merge_spec(w.skip(i), r.skip(j)) == seq![r[j]]
            + merge_spec(w.skip(i + 1), r.skip(j + 1)),
{
    let ws = w.skip(i);
    let rs = r.skip(j);
    if i < w.len() {
        assert(ws[0] == w[i]);
        assert(ws.drop_first() == w.skip(i + 1));
        assert(ws == seq![ws[0]] + ws.drop_first());
    }
    if j < r.len() {
        assert(rs[0] == r[j]);
        assert(rs.drop_first() == r.skip(j + 1));
        assert(rs == seq![rs[0]] + rs.drop_first());
    }
    if i == w.len() {
        assert(ws.len() == 0);
        assert(merge_spec(ws, r.skip(j + 1)) == r.skip(j + 1));
    }
    if j == r.len() {
        assert(rs.len() == 0);
        if i + 1 == w.len() {
            assert(w.skip(i + 1).len() == 0);
        }
        assert(merge_spec(w.skip(i + 1), rs) == w.skip(i + 1));
    }
}

/// Merges the storage read from the store before a wipe (`wiped`) with a
/// block's storage revert record (`reverts`), both ascending by key. The
/// result ascends, holds every key of either once, and where a key is in
/// both takes the revert record's value.
#[verifier::rlimit(60)]
pub fn merge_wiped(wiped: &Vec<StorageEntry>, reverts: &Vec<StorageEntry>) -> (out: Vec<StorageEntry>)
    requires
        keys_ascending(wiped@),
        keys_ascending(reverts@),
    ensures
        keys_ascending(out@),
        forall|k: nat| has_key(out@, k) <==> (has_key(wiped@, k) || has_key(reverts@, k)),
        forall|e: StorageEntry|
            has_entry(out@, e) ==> (has_entry(reverts@, e) || (has_entry(wiped@, e)
                && !has_key(reverts@, e.key@))),
        forall|e: StorageEntry| has_entry(reverts@, e) ==> has_entry(out@, e),
        forall|e: StorageEntry| has_entry(wiped@, e) && !has_key(reverts@, e.key@) ==> has_entry(out@, e),
        out@ == merge_spec(wiped@, reverts@),
{
    let mut out: Vec<StorageEntry> = Vec::new();
    let mut i: usize = 0;
    let mut j: usize = 0;
    assert(wiped@.skip(0) == wiped@ && reverts@.skip(0) == reverts@);
    assert(out@ + merge_spec(wiped@, reverts@) == merge_spec(wiped@, reverts@));
    while i < wiped.len() || j < reverts.len()
        invariant
            keys_ascending(wiped@),
            keys_ascending(reverts@),
            i <= wiped.len(),
            j <= reverts.len(),
            keys_ascending(out@),
            forall|p: int| 0 <= p < out.len() && i < wiped.len() ==> #[trigger] out@[p].key@ < wiped@[i as int].key@,
            forall|p: int| 0 <= p < out.len() && j < reverts.len() ==> #[trigger] out@[p].key@ < reverts@[j as int].key@,
            forall|k: nat| has_key(out@, k) <==> (has_key(wiped@.take(i as int), k) || has_key(reverts@.take(j as int), k)),
            forall|e: StorageEntry|
                has_entry(out@, e) ==> (has_entry(reverts@, e) || (has_entry(wiped@, e)
                    && !has_key(reverts@, e.key@))),
            out@ + merge_spec(wiped@.skip(i as int), reverts@.skip(j as int)) == merge_spec(wiped@, reverts@),
        decreases wiped.len() + reverts.len() - i - j,
    {
        let ghost old_out = out@;
        let ghost (oi, oj) = (i as int, j as int);
        let take_wiped = if i < wiped.len() && j < reverts.len() {
            wiped[i].key.lt(&reverts[j].key)
        } else {
            i < wiped.len()
        };
        let take_revert = if i < wiped.len() && j < reverts.len() {
            !take_wiped
        } else {
            j < reverts.len()
        };
        let e = if take_revert { reverts[j] } else { wiped[i] };
        proof {
            lemma_merge_step(wiped@, reverts@, oi, oj);
        }
        if take_wiped {
            i = i + 1;
        } else if take_revert {
            if i < wiped.len() && !reverts[j].key.lt(&wiped[i].key) {
                i = i + 1;
            }
            j = j + 1;
        }
        out.push(e);
        proof {
            assert(out@ == old_out.push(e));
            assert(out@ + merge_spec(wiped@.skip(i as int), reverts@.skip(j as int))
                == old_out + merge_spec(wiped@.skip(oi), reverts@.skip(oj))) by {
                assert(merge_spec(wiped@.skip(oi), reverts@.skip(oj)) == seq![e] + merge_spec(wiped@.skip(i as int), reverts@.skip(j as int)));
                assert(old_out.push(e) == old_out + seq![e]);
                assert((old_out + seq![e]) + merge_spec(wiped@.skip(i as int), reverts@.skip(j as int))
                    == old_out + (seq![e] + merge_spec(wiped@.skip(i as int), reverts@.skip(j as int))));
            }
            assert forall|p: int| 0 <= p < old_out.len() implies #[trigger] old_out[p].key@ < e.key@ by {
                if take_revert {
                    assert(old_out[p].key@ < reverts@[oj].key@);
                } else {
                    assert(old_out[p].key@ < wiped@[oi].key@);
                }
            }
            if j < reverts.len() {
                if j > oj {
                    assert(reverts@[oj].key@ < reverts@[j as int].key@);
                }
                assert(e.key@ < reverts@[j as int].key@);
                assert forall|p: int| 0 <= p < out.len() implies #[trigger] out@[p].key@ < reverts@[j as int].key@ by {
                    if p < old_out.len() {
                        assert(old_out[p].key@ < e.key@);
                    }
                }
            }
            if i < wiped.len() {
                if i > oi {
                    assert(wiped@[oi].key@ < wiped@[i as int].key@);
                }
                assert(e.key@ < wiped@[i as int].key@);
                assert forall|p: int| 0 <= p < out.len() implies #[trigger] out@[p].key@ < wiped@[i as int].key@ by {
                    if p < old_out.len() {
                        assert(old_out[p].key@ < e.key@);
                    }
                }
            }
            assert forall|a: int, b: int| 0 <= a < b < out@.len() implies #[trigger] out@[a].key@ < #[trigger] out@[b].key@ by {
                if b < old_out.len() {
                    assert(old_out[a].key@ < old_out[b].key@);
                }
            }
            assert forall|k: nat| has_key(out@, k) <==> (has_key(wiped@.take(i as int), k) || has_key(reverts@.take(j as int), k)) by {
                if has_key(out@, k) {
                    let p = choose|p: int| 0 <= p < out@.len() && #[trigger] out@[p].key@ == k;
                    if p < old_out.len() {
                        assert(has_key(old_out, k));
                        if has_key(wiped@.take(oi), k) {
                            let q = choose|q: int| 0 <= q < oi && #[trigger] wiped@.take(oi)[q].key@ == k;
                            assert(wiped@.take(i as int)[q] == wiped@[q]);
                        } else {
                            let q = choose|q: int| 0 <= q < oj && #[trigger] reverts@.take(oj)[q].key@ == k;
                            assert(reverts@.take(j as int)[q] == reverts@[q]);
                        }
                    } else if take_revert {
                        assert(reverts@.take(j as int)[oj] == e);
                    } else {
                        assert(wiped@.take(i as int)[oi] == e);
                    }
                }
                if has_key(wiped@.take(i as int), k) {
                    let q = choose|q: int| 0 <= q < i && #[trigger] wiped@.take(i as int)[q].key@ == k;
                    if q < oi {
                        assert(wiped@.take(oi)[q] == wiped@[q]);
                        assert(has_key(old_out, k));
                        let p = choose|p: int| 0 <= p < old_out.len() && #[trigger] old_out[p].key@ == k;
                        assert(out@[p] == old_out[p]);
                    } else {
                        assert(q == oi);
                        assert(wiped@.take(i as int)[q] == wiped@[oi]);
                        assert(wiped@[oi].key@ == e.key@);
                        assert(out@[old_out.len() as int].key@ == k);
                    }
                }
                if has_key(reverts@.take(j as int), k) {
                    let q = choose|q: int| 0 <= q < j && #[trigger] reverts@.take(j as int)[q].key@ == k;
                    if q < oj {
                        assert(reverts@.take(oj)[q] == reverts@[q]);
                        assert(has_key(old_out, k));
                        let p = choose|p: int| 0 <= p < old_out.len() && #[trigger] old_out[p].key@ == k;
                        assert(out@[p] == old_out[p]);
                    } else {
                        assert(q == oj);
                        assert(reverts@.take(j as int)[q] == reverts@[oj]);
                        assert(out@[old_out.len() as int].key@ == k);
                    }
                }
            }
            assert forall|x: StorageEntry| has_entry(out@, x) implies (has_entry(reverts@, x) || (has_entry(wiped@, x)
                    && !has_key(reverts@, x.key@))) by {
                let p = choose|p: int| 0 <= p < out@.len() && #[trigger] out@[p] == x;
                if p < old_out.len() {
                    assert(has_entry(old_out, x));
                } else if take_revert {
                    assert(reverts@[oj] == x);
                } else {
                    assert(wiped@[oi] == x);
                    if has_key(reverts@, x.key@) {
                        let q = choose|q: int| 0 <= q < reverts@.len() && #[trigger] reverts@[q].key@ == x.key@;
                        if q < oj {
                            assert(has_key(reverts@.take(oj), x.key@)) by {
                                assert(reverts@.take(oj)[q] == reverts@[q]);
                            }
                            assert(has_key(old_out, x.key@));
                            let w2 = choose|w2: int| 0 <= w2 < old_out.len() && #[trigger] old_out[w2].key@ == x.key@;
                            assert(old_out[w2].key@ < wiped@[oi].key@);
                        } else if q > oj {
                            assert(reverts@[oj].key@ < reverts@[q].key@);
                        }
                    }
                }
            }
        }
    }
    assert(wiped@.take(i as int) =~= wiped@);
    assert(reverts@.take(j as int) =~= reverts@);
    assert(wiped@.skip(i as int).len() == 0 && reverts@.skip(j as int).len() == 0);
    assert(out@ + Seq::<StorageEntry>::empty() == out@);
    assert forall|e: StorageEntry| has_entry(reverts@, e) implies has_entry(out@, e) by {
        let q = choose|q: int| 0 <= q < reverts@.len() && #[trigger] reverts@[q] == e;
        assert(has_key(reverts@, e.key@));
        assert(has_key(reverts@.take(j as int), e.key@));
        assert(has_key(out@, e.key@));
        let p = choose|p: int| 0 <= p < out@.len() && #[trigger] out@[p].key@ == e.key@;
        assert(has_entry(out@, out@[p]));
        if has_entry(reverts@, out@[p]) {
            let q2 = choose|q2: int| 0 <= q2 < reverts@.len() && #[trigger] reverts@[q2] == out@[p];
            if q2 < q {
                assert(reverts@[q2].key@ < reverts@[q].key@);
            } else if q2 > q {
                assert(reverts@[q].key@ < reverts@[q2].key@);
            }
        }
    }
    assert forall|e: StorageEntry| has_entry(wiped@, e) && !has_key(reverts@, e.key@) implies has_entry(out@, e) by {
        let q = choose|q: int| 0 <= q < wiped@.len() && #[trigger] wiped@[q] == e;
        assert(has_key(wiped@, e.key@));
        assert(has_key(wiped@.take(i as int), e.key@));
        assert(has_key(out@, e.key@));
        let p = choose|p: int| 0 <= p < out@.len() && #[trigger] out@[p].key@ == e.key@;
        assert(has_entry(out@, out@[p]));
        if has_entry(reverts@, out@[p]) {
            let q2 = choose|q2: int| 0 <= q2 < reverts@.len() && #[trigger] reverts@[q2] == out@[p];
            assert(has_key(reverts@, e.key@));
        } else {
            let q2 = choose|q2: int| 0 <= q2 < wiped@.len() && #[trigger] wiped@[q2] == out@[p];
            if q2 < q {
                assert(wiped@[q2].key@ < wiped@[q].key@);
            } else if q2 > q {
                assert(wiped@[q].key@ < wiped@[q2].key@);
            }
        }
    }
    out
}

} // verus!

verus! {

/// The change-set rows of a slot list written for one block and address.
pub open spec fn storage_rows(b: int, a: Address, s: Seq<StorageEntry>) -> Seq<StorageBeforeTx> {
    s.map_values(|e: StorageEntry| StorageBeforeTx { block: b as u64, address: a, entry: e })
}

/// The account change-set row of one record, if it restores the account.
pub open spec fn account_row(b: int, r: AccountRevert) -> Seq<AccountBeforeTx> {
    match r.account {
        AccountInfoRevert::DoNothing => Seq::empty(),
        AccountInfoRevert::DeleteIt => seq![AccountBeforeTx { block: b as u64, address: r.address, info: None }],
        AccountInfoRevert::RevertTo(a) => seq![AccountBeforeTx { block: b as u64, address: r.address, info: Some(a) }],
    }
}

/// The account change-set rows of one block's records, in order.
pub open spec fn block_account_rows(b: int, recs: Seq<AccountRevert>) -> Seq<AccountBeforeTx>
    decreases recs.len(),
{
    if recs.len() == 0 {
        Seq::empty()
    } else {
        block_account_rows(b, recs.drop_last()) + account_row(b, recs.last())
    }
}

/// The account change-set rows of a run of blocks starting at `first`.
pub open spec fn account_rows(blocks: Seq<Vec<AccountRevert>>, first: int) -> Seq<AccountBeforeTx>
    decreases blocks.len(),
{
    if blocks.len() == 0 {
        Seq::empty()
    } else {
        account_rows(blocks.drop_last(), first) + block_account_rows(first + blocks.len() - 1, blocks.last()@)
    }
}

/// The storage change-set rows of one block's records, taken as recorded.
pub open spec fn block_storage_rows(b: int, recs: Seq<AccountRevert>) -> Seq<StorageBeforeTx>
    decreases recs.len(),
{
    if recs.len() == 0 {
        Seq::empty()
    } else {
        block_storage_rows(b, recs.drop_last()) + storage_rows(b, recs.last().address, recs.last().storage@)
    }
}

/// The storage change-set rows of a run of blocks, taken as recorded.
pub open spec fn recorded_storage_rows(blocks: Seq<Vec<AccountRevert>>, first: int) -> Seq<StorageBeforeTx>
    decreases blocks.len(),
{
    if blocks.len() == 0 {
        Seq::empty()
    } else {
        recorded_storage_rows(blocks.drop_last(), first) + block_storage_rows(first + blocks.len() - 1, blocks.last()@)
    }
}

/// The storage change-set rows of one record, given the slots that the store
/// held for its address when the record was written: a wiping record writes
/// them merged with its own prior values, any other record its prior values.
pub open spec fn record_rows(b: int, r: AccountRevert, held: Seq<StorageEntry>) -> Seq<StorageBeforeTx> {
    if r.wipe_storage {
        storage_rows(b, r.address, merge_spec(held, r.storage@))
    } else {
        storage_rows(b, r.address, r.storage@)
    }
}

/// The slots that the store holds for `a` during a run: those persisted
/// before it, unless an earlier record of the run wiped them.
pub open spec fn held_slots(plain0: Seq<PlainSlot>, wiped_before: bool, a: Address) -> Seq<StorageEntry> {
    if wiped_before {
        Seq::empty()
    } else {
        slots_of(plain0, a)
    }
}

/// The storage change-set rows of one block's records, after the blocks
/// `prior` of the same run, over the persisted slots `plain0`.
pub open spec fn block_history_rows(
    plain0: Seq<PlainSlot>,
    prior: Seq<Vec<AccountRevert>>,
    b: int,
    recs: Seq<AccountRevert>,
) -> Seq<StorageBeforeTx>
    decreases recs.len(),
{
    if recs.len() == 0 {
        Seq::empty()
    } else {
        let t = recs.drop_last();
        let r = recs.last();
        block_history_rows(plain0, prior, b, t) + record_rows(
            b,
            r,
            held_slots(plain0, wipes_address(prior, r.address) || wipes_in(t, r.address), r.address),
        )
    }
}

/// The storage change-set rows of a run of blocks starting at `first`, over
/// the persisted slots `plain0`.
pub open spec fn storage_history_rows(plain0: Seq<PlainSlot>, blocks: Seq<Vec<AccountRevert>>, first: int) -> Seq<StorageBeforeTx>
    decreases blocks.len(),
{
    if blocks.len() == 0 {
        Seq::empty()
    } else {
        storage_history_rows(plain0, blocks.drop_last(), first) + block_history_rows(
            plain0,
            blocks.drop_last(),
            first + blocks.len() - 1,
            blocks.last()@,
        )
    }
}

/// Some record of the list wipes the address's storage.
pub open spec fn wipes_in(recs: Seq<AccountRevert>, a: Address) -> bool {
    exists|i: int| 0 <= i < recs.len() && #[trigger] recs[i].address == a && recs[i].wipe_storage
}

/// Some record of the blocks wipes the address's storage.
pub open spec fn wipes_address(blocks: Seq<Vec<AccountRevert>>, a: Address) -> bool {
    exists|b: int| 0 <= b < blocks.len() && wipes_in(#[trigger] blocks[b]@, a)
}

/// The store holds no slot of an address that the blocks wipe.
pub open spec fn no_wiped_slots(st: Store, blocks: Seq<Vec<AccountRevert>>) -> bool {
    forall|e: PlainSlot| #[trigger] st.plain_storage@.contains(e) ==> !wipes_address(blocks, e.address)
}

/// Writes the storage history of one record for block `b`. A wiping record
/// first takes the address's persisted slots out of the store and writes
/// them, merged with the record (whose values win on equal keys).
pub fn write_storage_record(store: &mut Store, b: BlockNumber, r: &AccountRevert)
    requires
        old(store).wf(),
        keys_ascending(r.storage@),
    ensures
        final(store).wf(),
        final(store).plain_accounts == old(store).plain_accounts,
        final(store).account_changesets == old(store).account_changesets,
        final(store).receipts == old(store).receipts,
        final(store).bytecodes == old(store).bytecodes,
        !r.wipe_storage ==> final(store).plain_storage@ == old(store).plain_storage@,
        forall|e: PlainSlot| #[trigger] final(store).plain_storage@.contains(e) <==> (
            old(store).plain_storage@.contains(e) && !(r.wipe_storage && e.address == r.address)),
        final(store).storage_changesets@.len() >= old(store).storage_changesets@.len(),
        final(store).storage_changesets@.subrange(0, old(store).storage_changesets@.len() as int)
            == old(store).storage_changesets@,
        (forall|e: PlainSlot| #[trigger] old(store).plain_storage@.contains(e)
            ==> !(r.wipe_storage && e.address == r.address))
            ==> final(store).storage_changesets@ == old(store).storage_changesets@ + storage_rows(b as int, r.address, r.storage@),
        final(store).storage_changesets@ == old(store).storage_changesets@ + record_rows(
            b as int,
            *r,
            slots_of(old(store).plain_storage@, r.address),
        ),
        forall|x: Address| #[trigger] slots_of(final(store).plain_storage@, x) == if r.wipe_storage && x == r.address {
            Seq::<StorageEntry>::empty()
        } else {
            slots_of(old(store).plain_storage@, x)
        },
        r.wipe_storage ==> exists|seg: Seq<StorageEntry>| {
            &&& final(store).storage_changesets@ == old(store).storage_changesets@ + storage_rows(b as int, r.address, seg)
            &&& keys_ascending(seg)
            &&& forall|e: StorageEntry| has_entry(seg, e) ==> (has_entry(r.storage@, e) || (
                old(store).plain_storage@.contains(PlainSlot { address: r.address, key: e.key, value: e.value })
                && !has_key(r.storage@, e.key@)))
            &&& forall|e: StorageEntry| has_entry(r.storage@, e) ==> has_entry(seg, e)
            &&& forall|e: StorageEntry| #![trigger old(store).plain_storage@.contains(PlainSlot { address: r.address, key: e.key, value: e.value })]
                old(store).plain_storage@.contains(PlainSlot { address: r.address, key: e.key, value: e.value })
                && !has_key(r.storage@, e.key@) ==> has_entry(seg, e)
        },
{
    let a = r.address;
    let ghost s0 = store.storage_changesets@;
    let ghost plain0 = store.plain_storage@;
    let wiped = if r.wipe_storage {
        let w = store.storage_of(&a);
        store.delete_storage_of(&a);
        w
    } else {
        Vec::new()
    };
    proof {
        if forall|e: PlainSlot| #[trigger] plain0.contains(e) ==> !(r.wipe_storage && e.address == r.address) {
            if wiped@.len() > 0 {
                assert(wiped@.contains(wiped@[0]));
                assert(plain0.contains(PlainSlot { address: a, key: wiped@[0].key, value: wiped@[0].value }));
            }
        }
    }
    let ghost pw = store.plain_storage@;
    let entries = if wiped.len() == 0 {
        copy_entries(&r.storage)
    } else {
        merge_wiped(&wiped, &r.storage)
    };
    proof {
        if r.wipe_storage {
            assert(wiped@ == slots_of(plain0, a));
            if wiped@.len() == 0 {
                assert(merge_spec(wiped@, r.storage@) == r.storage@);
            }
            assert(entries@ == merge_spec(slots_of(plain0, a), r.storage@));
        } else {
            assert(entries@ == r.storage@);
        }
    }
    proof {
        assert forall|e: StorageEntry| has_entry(wiped@, e) <==> plain0.contains(PlainSlot { address: a, key: e.key, value: e.value }) && r.wipe_storage by {
            if has_entry(wiped@, e) {
                assert(wiped@.contains(e));
            }
            if r.wipe_storage && plain0.contains(PlainSlot { address: a, key: e.key, value: e.value }) {
                assert(wiped@.contains(e));
            }
        }
    }
    let mut i: usize = 0;
    while i < entries.len()
        invariant
            store.wf(),
            i <= entries@.len(),
            store.storage_changesets@ == s0 + storage_rows(b as int, a, entries@.take(i as int)),
            store.plain_accounts == old(store).plain_accounts,
            store.account_changesets == old(store).account_changesets,
            store.receipts == old(store).receipts,
            store.bytecodes == old(store).bytecodes,
            r.wipe_storage ==> forall|e: PlainSlot| #[trigger] store.plain_storage@.contains(e) <==> (plain0.contains(e) && e.address != a),
            !r.wipe_storage ==> store.plain_storage@ == plain0,
            store.plain_storage@ == pw,
        decreases entries@.len() - i,
    {
        store.storage_changesets.push(StorageBeforeTx { block: b, address: a, entry: entries[i] });
        assert(entries@.take(i + 1) == entries@.take(i as int).push(entries@[i as int]));
        assert(storage_rows(b as int, a, entries@.take(i + 1)) == storage_rows(b as int, a, entries@.take(i as int)).push(
            StorageBeforeTx { block: b, address: a, entry: entries@[i as int] }));
        i = i + 1;
    }
    assert(entries@.take(i as int) == entries@);
    assert(store.storage_changesets@.subrange(0, s0.len() as int) == s0);
    proof {
        if !r.wipe_storage {
            assert forall|e: PlainSlot| #[trigger] store.plain_storage@.contains(e) <==> (
                plain0.contains(e) && !(r.wipe_storage && e.address == r.address)) by {}
        }
        if r.wipe_storage {
            if wiped@.len() == 0 {
                assert forall|e: StorageEntry| #![trigger plain0.contains(PlainSlot { address: r.address, key: e.key, value: e.value })]
                    plain0.contains(PlainSlot { address: r.address, key: e.key, value: e.value })
                    && !has_key(r.storage@, e.key@) implies has_entry(entries@, e) by {
                    assert(has_entry(wiped@, e));
                }
            }
        }
    }
}

/// Writes the storage history of one block's records, in order.
fn write_block_storage(
    store: &mut Store,
    b: BlockNumber,
    recs: &Vec<AccountRevert>,
    base: Ghost<Seq<PlainSlot>>,
    prior: Ghost<Seq<Vec<AccountRevert>>>,
)
    requires
        old(store).wf(),
        forall|i: int| 0 <= i < recs@.len() ==> keys_ascending(#[trigger] recs@[i].storage@),
        forall|x: Address| #[trigger] slots_of(old(store).plain_storage@, x) == held_slots(base@, wipes_address(prior@, x), x),
    ensures
        final(store).storage_changesets@ == old(store).storage_changesets@ + block_history_rows(base@, prior@, b as int, recs@),
        forall|x: Address| #[trigger] slots_of(final(store).plain_storage@, x) == held_slots(
            base@,
            wipes_address(prior@, x) || wipes_in(recs@, x),
            x,
        ),
        final(store).wf(),
        final(store).plain_accounts == old(store).plain_accounts,
        final(store).account_changesets == old(store).account_changesets,
        final(store).receipts == old(store).receipts,
        final(store).bytecodes == old(store).bytecodes,
        forall|e: PlainSlot| #[trigger] final(store).plain_storage@.contains(e) <==> (
            old(store).plain_storage@.contains(e) && !wipes_in(recs@, e.address)),
        final(store).storage_changesets@.len() >= old(store).storage_changesets@.len(),
        final(store).storage_changesets@.subrange(0, old(store).storage_changesets@.len() as int)
            == old(store).storage_changesets@,
        (forall|e: PlainSlot| #[trigger] old(store).plain_storage@.contains(e) ==> !wipes_in(recs@, e.address))
            ==> final(store).storage_changesets@ == old(store).storage_changesets@ + block_storage_rows(b as int, recs@),
{
    let ghost plain0 = store.plain_storage@;
    let ghost s0 = store.storage_changesets@;
    let ghost clean = forall|e: PlainSlot| #[trigger] plain0.contains(e) ==> !wipes_in(recs@, e.address);
    let mut i: usize = 0;
    while i < recs.len()
        invariant
            store.wf(),
            i <= recs@.len(),
            forall|j: int| 0 <= j < recs@.len() ==> keys_ascending(#[trigger] recs@[j].storage@),
            store.plain_accounts == old(store).plain_accounts,
            store.account_changesets == old(store).account_changesets,
            store.receipts == old(store).receipts,
            store.bytecodes == old(store).bytecodes,
            plain0 == old(store).plain_storage@,
            s0 == old(store).storage_changesets@,
            clean == forall|e: PlainSlot| #[trigger] plain0.contains(e) ==> !wipes_in(recs@, e.address),
            forall|e: PlainSlot| #[trigger] store.plain_storage@.contains(e) <==> (
                plain0.contains(e) && !wipes_in(recs@.take(i as int), e.address)),
            store.storage_changesets@.len() >= s0.len(),
            store.storage_changesets@.subrange(0, s0.len() as int) == s0,
            clean ==> store.storage_changesets@ == s0 + block_storage_rows(b as int, recs@.take(i as int)),
            store.storage_changesets@ == s0 + block_history_rows(base@, prior@, b as int, recs@.take(i as int)),
            forall|x: Address| #[trigger] slots_of(store.plain_storage@, x) == held_slots(
                base@,
                wipes_address(prior@, x) || wipes_in(recs@.take(i as int), x),
                x,
            ),
        decreases recs@.len() - i,
    {
        let ghost before = store.storage_changesets@;
        let ghost pb = store.plain_storage@;
        proof {
            if clean {
                assert forall|e: PlainSlot| #[trigger] pb.contains(e) implies !(recs@[i as int].wipe_storage && e.address == recs@[i as int].address) by {
                    if recs@[i as int].wipe_storage && e.address == recs@[i as int].address {
                        assert(wipes_in(recs@, e.address));
                    }
                }
            }
        }
        let ghost sl = store.plain_storage@;
        write_storage_record(store, b, &recs[i]);
        proof {
            let t1 = recs@.take(i + 1);
            assert(t1.drop_last() == recs@.take(i as int));
            assert(t1.last() == recs@[i as int]);
            let r = recs@[i as int];
            assert(slots_of(sl, r.address) == held_slots(base@, wipes_address(prior@, r.address) || wipes_in(recs@.take(i as int), r.address), r.address));
            assert(store.storage_changesets@ == s0 + block_history_rows(base@, prior@, b as int, t1)) by {
                assert(block_history_rows(base@, prior@, b as int, t1) == block_history_rows(base@, prior@, b as int, recs@.take(i as int))
                    + record_rows(b as int, r, slots_of(sl, r.address)));
                assert(before == s0 + block_history_rows(base@, prior@, b as int, recs@.take(i as int)));
            }
            assert forall|x: Address| wipes_in(t1, x) == (wipes_in(recs@.take(i as int), x) || (r.wipe_storage && r.address == x)) by {
                if wipes_in(t1, x) && !wipes_in(recs@.take(i as int), x) {
                    let q = choose|q: int| 0 <= q < t1.len() && #[trigger] t1[q].address == x && t1[q].wipe_storage;
                    if q < i {
                        assert(recs@.take(i as int)[q] == t1[q]);
                    }
                }
                if wipes_in(recs@.take(i as int), x) {
                    let q = choose|q: int| 0 <= q < i && #[trigger] recs@.take(i as int)[q].address == x && recs@.take(i as int)[q].wipe_storage;
                    assert(t1[q] == recs@.take(i as int)[q]);
                }
                if r.wipe_storage && r.address == x {
                    assert(t1[i as int] == r);
                }
            }
            assert forall|x: Address| #[trigger] slots_of(store.plain_storage@, x) == held_slots(
                base@,
                wipes_address(prior@, x) || wipes_in(t1, x),
                x,
            ) by {
                assert(slots_of(sl, x) == held_slots(base@, wipes_address(prior@, x) || wipes_in(recs@.take(i as int), x), x));
            }
            assert forall|e: PlainSlot| #[trigger] store.plain_storage@.contains(e) <==> (
                plain0.contains(e) && !wipes_in(t1, e.address)) by {
                if wipes_in(t1, e.address) && !wipes_in(recs@.take(i as int), e.address) {
                    let q = choose|q: int| 0 <= q < t1.len() && #[trigger] t1[q].address == e.address && t1[q].wipe_storage;
                    if q < i {
                        assert(recs@.take(i as int)[q] == t1[q]);
                    }
                }
                if wipes_in(recs@.take(i as int), e.address) {
                    let q = choose|q: int| 0 <= q < i && #[trigger] recs@.take(i as int)[q].address == e.address && recs@.take(i as int)[q].wipe_storage;
                    assert(t1[q] == recs@.take(i as int)[q]);
                }
            }
            let n = s0.len() as int;
            assert(store.storage_changesets@.subrange(0, n) == before.subrange(0, n));
        }
        i = i + 1;
    }
    assert(recs@.take(i as int) == recs@);
}

/// Per-block revert records of a run of blocks, the first block first.
pub struct StateReverts(pub Vec<Vec<AccountRevert>>);

impl StateReverts {
    /// Wraps revert records.
    pub fn from(reverts: Vec<Vec<AccountRevert>>) -> (r: Self)
        ensures
            r.0 == reverts,
    {
        StateReverts(reverts)
    }

    /// Writes the change-sets of blocks `first_block..`: for each block its
    /// storage history (wiping persisted storage where a record says so) and
    /// the accounts' values before it.
    pub fn write_to_db(self, store: &mut Store, first_block: BlockNumber)
        requires
            old(store).wf(),
            first_block + self.0@.len() <= u64::MAX,
            forall|b: int, i: int|
                0 <= b < self.0@.len() && 0 <= i < self.0@[b]@.len() ==> keys_ascending(#[trigger] self.0@[b]@[i].storage@),
        ensures
            final(store).wf(),
            final(store).plain_accounts == old(store).plain_accounts,
            final(store).receipts == old(store).receipts,
            final(store).bytecodes == old(store).bytecodes,
            final(store).account_changesets@ == old(store).account_changesets@ + account_rows(self.0@, first_block as int),
            forall|e: PlainSlot| #[trigger] final(store).plain_storage@.contains(e) <==> (
                old(store).plain_storage@.contains(e) && !wipes_address(self.0@, e.address)),
            final(store).storage_changesets@.len() >= old(store).storage_changesets@.len(),
            final(store).storage_changesets@.subrange(0, old(store).storage_changesets@.len() as int)
                == old(store).storage_changesets@,
            no_wiped_slots(*old(store), self.0@) ==> final(store).storage_changesets@
                == old(store).storage_changesets@ + recorded_storage_rows(self.0@, first_block as int),
            final(store).storage_changesets@ == old(store).storage_changesets@ + storage_history_rows(
                old(store).plain_storage@,
                self.0@,
                first_block as int,
            ),
    {
        let blocks = &self.0;
        let ghost plain0 = store.plain_storage@;
        let ghost s0 = store.storage_changesets@;
        let ghost clean = no_wiped_slots(*store, blocks@);
        assert(blocks@.take(0) =~= Seq::<Vec<AccountRevert>>::empty());
        let mut b: usize = 0;
        while b < blocks.len()
            invariant
                store.wf(),
                b <= blocks@.len(),
                first_block + blocks@.len() <= u64::MAX,
                forall|x: int, i: int|
                    0 <= x < blocks@.len() && 0 <= i < blocks@[x]@.len() ==> keys_ascending(#[trigger] blocks@[x]@[i].storage@),
                store.plain_accounts == old(store).plain_accounts,
                store.account_changesets == old(store).account_changesets,
                store.receipts == old(store).receipts,
                store.bytecodes == old(store).bytecodes,
                plain0 == old(store).plain_storage@,
                s0 == old(store).storage_changesets@,
                clean == no_wiped_slots(*old(store), blocks@),
                forall|e: PlainSlot| #[trigger] store.plain_storage@.contains(e) <==> (
                    plain0.contains(e) && !wipes_address(blocks@.take(b as int), e.address)),
                store.storage_changesets@.len() >= s0.len(),
                store.storage_changesets@.subrange(0, s0.len() as int) == s0,
                clean ==> store.storage_changesets@ == s0 + recorded_storage_rows(blocks@.take(b as int), first_block as int),
                store.storage_changesets@ == s0 + storage_history_rows(plain0, blocks@.take(b as int), first_block as int),
                forall|x: Address| #[trigger] slots_of(store.plain_storage@, x) == held_slots(
                    plain0,
                    wipes_address(blocks@.take(b as int), x),
                    x,
                ),
            decreases blocks@.len() - b,
        {
            let ghost before = store.storage_changesets@;
            let ghost pb = store.plain_storage@;
            let recs = &blocks[b];
            proof {
                if clean {
                    assert forall|e: PlainSlot| #[trigger] pb.contains(e) implies !wipes_in(recs@, e.address) by {
                        if wipes_in(recs@, e.address) {
                            assert(wipes_address(blocks@, e.address));
                            assert(plain0.contains(e));
                        }
                    }
                }
            }
            write_block_storage(store, first_block + b as u64, recs, Ghost(plain0), Ghost(blocks@.take(b as int)));
            proof {
                let t1 = blocks@.take(b + 1);
                assert(t1.drop_last() == blocks@.take(b as int));
                assert(t1.last() == blocks@[b as int]);
                assert(storage_history_rows(plain0, t1, first_block as int) == storage_history_rows(plain0, blocks@.take(b as int), first_block as int)
                    + block_history_rows(plain0, blocks@.take(b as int), first_block + b, recs@));
                assert forall|x: Address| wipes_address(t1, x) == (wipes_address(blocks@.take(b as int), x) || wipes_in(recs@, x)) by {
                    if wipes_address(t1, x) && !wipes_address(blocks@.take(b as int), x) {
                        let q = choose|q: int| 0 <= q < t1.len() && wipes_in(#[trigger] t1[q]@, x);
                        if q < b {
                            assert(blocks@.take(b as int)[q] == t1[q]);
                        }
                    }
                    if wipes_address(blocks@.take(b as int), x) {
                        let q = choose|q: int| 0 <= q < b && wipes_in(#[trigger] blocks@.take(b as int)[q]@, x);
                        assert(t1[q] == blocks@.take(b as int)[q]);
                    }
                    if wipes_in(recs@, x) {
                        assert(t1[b as int] == blocks@[b as int]);
                    }
                }
                assert forall|e: PlainSlot| #[trigger] store.plain_storage@.contains(e) <==> (
                    plain0.contains(e) && !wipes_address(t1, e.address)) by {
                    if wipes_address(t1, e.address) && !wipes_address(blocks@.take(b as int), e.address) {
                        let q = choose|q: int| 0 <= q < t1.len() && wipes_in(#[trigger] t1[q]@, e.address);
                        if q < b {
                            assert(blocks@.take(b as int)[q] == t1[q]);
                        }
                    }
                    if wipes_address(blocks@.take(b as int), e.address) {
                        let q = choose|q: int| 0 <= q < b && wipes_in(#[trigger] blocks@.take(b as int)[q]@, e.address);
                        assert(t1[q] == blocks@.take(b as int)[q]);
                    }
                }
                let n = s0.len() as int;
                assert(store.storage_changesets@.subrange(0, n) == before.subrange(0, n));
            }
            b = b + 1;
        }
        assert(blocks@.take(b as int) == blocks@);
        let ghost a0 = store.account_changesets@;
        let mut b: usize = 0;
        while b < blocks.len()
            invariant
                store.wf(),
                b <= blocks@.len(),
                first_block + blocks@.len() <= u64::MAX,
                store.account_changesets@ == a0 + account_rows(blocks@.take(b as int), first_block as int),
                a0 == old(store).account_changesets@,
                store.plain_accounts == old(store).plain_accounts,
                store.receipts == old(store).receipts,
                store.bytecodes == old(store).bytecodes,
                forall|e: PlainSlot| #[trigger] store.plain_storage@.contains(e) <==> (
                    plain0.contains(e) && !wipes_address(blocks@, e.address)),
                plain0 == old(store).plain_storage@,
                s0 == old(store).storage_changesets@,
                store.storage_changesets@.len() >= s0.len(),
                store.storage_changesets@.subrange(0, s0.len() as int) == s0,
                clean == no_wiped_slots(*old(store), blocks@),
                clean ==> store.storage_changesets@ == s0 + recorded_storage_rows(blocks@, first_block as int),
                store.storage_changesets@ == s0 + storage_history_rows(plain0, blocks@, first_block as int),
            decreases blocks@.len() - b,
        {
            let recs = &blocks[b];
            let block = first_block + b as u64;
            let ghost ab = store.account_changesets@;
            let ghost (pb, sb) = (store.plain_storage, store.storage_changesets);
            let mut i: usize = 0;
            while i < recs.len()
                invariant
                    store.wf(),
                    store.plain_accounts == old(store).plain_accounts,
                    store.receipts == old(store).receipts,
                    store.bytecodes == old(store).bytecodes,
                    store.plain_storage == pb,
                    store.storage_changesets == sb,
                    i <= recs@.len(),
                    store.account_changesets@ == ab + block_account_rows(block as int, recs@.take(i as int)),
                decreases recs@.len() - i,
            {
                let r = &recs[i];
                let ghost before = store.account_changesets@;
                match r.account {
                    AccountInfoRevert::DoNothing => {},
                    AccountInfoRevert::DeleteIt => {
                        store.account_changesets.push(AccountBeforeTx { block, address: r.address, info: None });
                    },
                    AccountInfoRevert::RevertTo(acc) => {
                        store.account_changesets.push(AccountBeforeTx { block, address: r.address, info: Some(acc) });
                    },
                }
                assert(recs@.take(i + 1).drop_last() == recs@.take(i as int));
                assert(store.account_changesets@ == before + account_row(block as int, recs@[i as int]));
                i = i + 1;
            }
            assert(recs@.take(i as int) == recs@);
            assert(blocks@.take(b + 1).drop_last() == blocks@.take(b as int));
            b = b + 1;
        }
        assert(blocks@.take(b as int) == blocks@);
    }
}

} // verus!
