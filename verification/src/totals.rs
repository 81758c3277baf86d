//! Sums over a snapshot of transactions: of all of one kind, and of those
//! among them that share a tag or a month.

use crate::models::{Transaction, TransactionType};
use vstd::prelude::*;

verus! {

/// What `tx` adds to a sum of the transactions of `kind` that pass `keep`.
pub open spec fn counted(
    tx: Transaction,
    kind: TransactionType,
    keep: spec_fn(Transaction) -> bool,
) -> nat {
    if tx.kind == kind && keep(tx) {
        tx.amount as nat
    } else {
        0
    }
}

/// The sum of the amounts of the transactions of `kind` that pass `keep`.
pub open spec fn total_where(
    txs: Seq<Transaction>,
    kind: TransactionType,
    keep: spec_fn(Transaction) -> bool,
) -> nat
    decreases txs.len(),
{
    if txs.len() == 0 {
        0
    } else {
        total_where(txs.drop_last(), kind, keep) + counted(txs.last(), kind, keep)
    }
}

/// The test that every transaction passes.
pub open spec fn any() -> spec_fn(Transaction) -> bool {
    |tx: Transaction| true
}

/// The test that a transaction passes when its key is `k`.
pub open spec fn keyed<K>(key: spec_fn(Transaction) -> K, k: K) -> spec_fn(Transaction) -> bool {
    |tx: Transaction| key(tx) == k
}

/// The test that a transaction passes when its key is one of `ks`.
pub open spec fn keyed_in<K>(key: spec_fn(Transaction) -> K, ks: Seq<K>) -> spec_fn(
    Transaction,
) -> bool {
    |tx: Transaction| ks.contains(key(tx))
}

/// The sum of the amounts of the transactions of `kind`.
pub open spec fn total_of(txs: Seq<Transaction>, kind: TransactionType) -> nat {
    total_where(txs, kind, any())
}

/// The totals of the groups with the keys `ks`, added up.
pub open spec fn sum_of_groups<K>(
    txs: Seq<Transaction>,
    kind: TransactionType,
    key: spec_fn(Transaction) -> K,
    ks: Seq<K>,
) -> nat
    decreases ks.len(),
{
    if ks.len() == 0 {
        0
    } else {
        sum_of_groups(txs, kind, key, ks.drop_last()) + total_where(
            txs,
            kind,
            keyed(key, ks.last()),
        )
    }
}

/// The keys of the transactions that pass `keep`, each once, in the order in
/// which they first occur.
pub open spec fn keys_seen<K>(
    txs: Seq<Transaction>,
    keep: spec_fn(Transaction) -> bool,
    key: spec_fn(Transaction) -> K,
) -> Seq<K>
    decreases txs.len(),
{
    if txs.len() == 0 {
        Seq::empty()
    } else {
        let before = keys_seen(txs.drop_last(), keep, key);
        if keep(txs.last()) && !before.contains(key(txs.last())) {
            before.push(key(txs.last()))
        } else {
            before
        }
    }
}

/// A sum over `n` transactions is at most `n` times the largest amount.
pub proof fn lemma_total_bound(
    txs: Seq<Transaction>,
    kind: TransactionType,
    keep: spec_fn(Transaction) -> bool,
)
    ensures
        total_where(txs, kind, keep) <= txs.len() * u64::MAX,
        total_where(txs, kind, keep) <= total_of(txs, kind),
    decreases txs.len(),
{
    if txs.len() > 0 {
        lemma_total_bound(txs.drop_last(), kind, keep);
        assert(txs.drop_last().len() * u64::MAX + u64::MAX == txs.len() * u64::MAX)
            by (nonlinear_arith)
            requires
                txs.drop_last().len() + 1 == txs.len(),
        ;
    }
}

/// A sum over a snapshot that fits in memory fits in 128 bits.
pub proof fn lemma_total_fits(
    txs: Seq<Transaction>,
    kind: TransactionType,
    keep: spec_fn(Transaction) -> bool,
)
    requires
        txs.len() <= usize::MAX,
    ensures
        total_where(txs, kind, keep) <= u128::MAX,
{
    lemma_total_bound(txs, kind, keep);
    assert(txs.len() * u64::MAX <= u128::MAX) by (nonlinear_arith)
        requires
            txs.len() <= u64::MAX,
    ;
}

/// Two tests that agree on the transactions of `kind` give the same sum.
pub proof fn lemma_total_same(
    txs: Seq<Transaction>,
    kind: TransactionType,
    p: spec_fn(Transaction) -> bool,
    q: spec_fn(Transaction) -> bool,
)
    requires
        forall|i: int| 0 <= i < txs.len() && txs[i].kind == kind ==> p(#[trigger] txs[i]) == q(txs[i]),
    ensures
        total_where(txs, kind, p) == total_where(txs, kind, q),
    decreases txs.len(),
{
    if txs.len() > 0 {
        let rest = txs.drop_last();
        assert forall|i: int| 0 <= i < rest.len() && rest[i].kind == kind implies p(
            #[trigger] rest[i],
        ) == q(rest[i]) by {
            assert(rest[i] == txs[i]);
        }
        lemma_total_same(rest, kind, p, q);
        assert(txs.last() == txs[txs.len() - 1]);
    }
}

/// A test that no transaction of `kind` passes gives the sum zero.
pub proof fn lemma_total_none(
    txs: Seq<Transaction>,
    kind: TransactionType,
    p: spec_fn(Transaction) -> bool,
)
    requires
        forall|i: int| 0 <= i < txs.len() && txs[i].kind == kind ==> !p(#[trigger] txs[i]),
    ensures
        total_where(txs, kind, p) == 0,
    decreases txs.len(),
{
    if txs.len() > 0 {
        let rest = txs.drop_last();
        assert forall|i: int| 0 <= i < rest.len() && rest[i].kind == kind implies !p(
            #[trigger] rest[i],
        ) by {
            assert(rest[i] == txs[i]);
        }
        lemma_total_none(rest, kind, p);
        assert(txs.last() == txs[txs.len() - 1]);
    }
}

/// No group of an empty snapshot holds anything.
proof fn lemma_sum_of_groups_empty<K>(
    kind: TransactionType,
    key: spec_fn(Transaction) -> K,
    ks: Seq<K>,
)
    ensures
        sum_of_groups(Seq::<Transaction>::empty(), kind, key, ks) == 0,
    decreases ks.len(),
{
    if ks.len() > 0 {
        lemma_sum_of_groups_empty(kind, key, ks.drop_last());
    }
}

/// One more transaction adds its amount to the groups together exactly when
/// its key is among theirs.
proof fn lemma_sum_of_groups_step<K>(
    txs: Seq<Transaction>,
    kind: TransactionType,
    key: spec_fn(Transaction) -> K,
    ks: Seq<K>,
)
    requires
        txs.len() > 0,
        ks.no_duplicates(),
    ensures
        sum_of_groups(txs, kind, key, ks) == sum_of_groups(txs.drop_last(), kind, key, ks)
            + counted(txs.last(), kind, keyed_in(key, ks)),
    decreases ks.len(),
{
    if ks.len() > 0 {
        let rest = ks.drop_last();
        let k = ks.last();
        assert(rest.no_duplicates());
        lemma_sum_of_groups_step(txs, kind, key, rest);
        let tx = txs.last();
        assert(!rest.contains(k)) by {
            if rest.contains(k) {
                let j = choose|j: int| 0 <= j < rest.len() && rest[j] == k;
                assert(ks[j] == ks[ks.len() - 1]);
            }
        }
        assert(ks.contains(key(tx)) <==> rest.contains(key(tx)) || key(tx) == k) by {
            if rest.contains(key(tx)) {
                let j = choose|j: int| 0 <= j < rest.len() && rest[j] == key(tx);
                assert(ks[j] == key(tx));
            }
            if key(tx) == k {
                assert(ks[ks.len() - 1] == k);
            }
            if ks.contains(key(tx)) {
                let j = choose|j: int| 0 <= j < ks.len() && ks[j] == key(tx);
                if j < rest.len() {
                    assert(rest[j] == key(tx));
                }
            }
        }
    }
}

/// Grouping loses nothing and counts nothing twice: the totals of groups with
/// different keys add up to the sum of the transactions whose key is one of
/// theirs.
pub proof fn lemma_groups_add_up<K>(
    txs: Seq<Transaction>,
    kind: TransactionType,
    key: spec_fn(Transaction) -> K,
    ks: Seq<K>,
)
    requires
        ks.no_duplicates(),
    ensures
        sum_of_groups(txs, kind, key, ks) == total_where(txs, kind, keyed_in(key, ks)),
    decreases txs.len(),
{
    if txs.len() == 0 {
        assert(txs =~= Seq::<Transaction>::empty());
        lemma_sum_of_groups_empty(kind, key, ks);
    } else {
        lemma_groups_add_up(txs.drop_last(), kind, key, ks);
        lemma_sum_of_groups_step(txs, kind, key, ks);
    }
}

/// The keys seen are all different, and they are the keys of the transactions
/// that pass the test.
pub proof fn lemma_keys_seen<K>(
    txs: Seq<Transaction>,
    keep: spec_fn(Transaction) -> bool,
    key: spec_fn(Transaction) -> K,
)
    ensures
        keys_seen(txs, keep, key).no_duplicates(),
        forall|i: int|
            0 <= i < txs.len() && keep(#[trigger] txs[i]) ==> keys_seen(txs, keep, key).contains(
                key(txs[i]),
            ),
        forall|k: K| #[trigger]
            keys_seen(txs, keep, key).contains(k) ==> exists|i: int|
                0 <= i < txs.len() && keep(#[trigger] txs[i]) && key(txs[i]) == k,
    decreases txs.len(),
{
    if txs.len() > 0 {
        let rest = txs.drop_last();
        let before = keys_seen(rest, keep, key);
        let now = keys_seen(txs, keep, key);
        let tx = txs.last();
        lemma_keys_seen(rest, keep, key);
        assert forall|k: K| before.contains(k) implies now.contains(k) by {
            let j = choose|j: int| 0 <= j < before.len() && before[j] == k;
            assert(now[j] == k);
        }
        if keep(tx) && !before.contains(key(tx)) {
            assert(now[now.len() - 1] == key(tx));
        }
        assert forall|i: int| 0 <= i < txs.len() && keep(#[trigger] txs[i]) implies now.contains(
            key(txs[i]),
        ) by {
            if i < rest.len() {
                assert(rest[i] == txs[i]);
            }
        }
        assert forall|k: K| #[trigger] now.contains(k) implies exists|i: int|
            0 <= i < txs.len() && keep(#[trigger] txs[i]) && key(txs[i]) == k by {
            if before.contains(k) {
                let i = choose|i: int| 0 <= i < rest.len() && keep(#[trigger] rest[i]) && key(rest[i]) == k;
                assert(rest[i] == txs[i]);
            } else {
                let j = choose|j: int| 0 <= j < now.len() && now[j] == k;
                if j < before.len() {
                    assert(before[j] == k);
                }
                assert(txs[txs.len() - 1] == tx);
            }
        }
    }
}

} // verus!
