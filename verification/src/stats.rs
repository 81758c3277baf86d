//! The figures of the report, computed from a snapshot of the transactions.
//!
//! Amounts are whole hundredths, so every sum is exact. A sum is held in 128
//! bits, which no snapshot that fits in memory can exceed.

use crate::models::{Tag, Transaction, TransactionType};
use crate::order::{
    lemma_text_lt_irreflexive, lemma_text_lt_total, lemma_text_lt_transitive, text_less, text_lt,
};
use crate::text::{chars_of, text_of};
use crate::totals::{
    any, keyed, keyed_in, keys_seen, lemma_groups_add_up, lemma_keys_seen, lemma_total_fits,
    lemma_total_none, lemma_total_same, sum_of_groups, total_of, total_where,
};
use vstd::prelude::*;

verus! {

/// The sum of the credited amounts.
pub open spec fn total_credited(txs: Seq<Transaction>) -> nat {
    total_of(txs, TransactionType::Credit)
}

/// The sum of the debited amounts.
pub open spec fn total_debited(txs: Seq<Transaction>) -> nat {
    total_of(txs, TransactionType::Debit)
}

/// What was credited less what was debited.
pub open spec fn balance_of(txs: Seq<Transaction>) -> int {
    total_credited(txs) - total_debited(txs)
}

/// The key by which transactions are grouped by tag: the tag's name.
pub open spec fn tag_key() -> spec_fn(Transaction) -> Seq<char> {
    |tx: Transaction| tx.tag.name()
}

/// The test that debits pass.
pub open spec fn is_debit() -> spec_fn(Transaction) -> bool {
    |tx: Transaction| tx.kind == TransactionType::Debit
}

/// The names of the tags of the debits, each once, in the order in which
/// they first occur.
pub open spec fn debit_tags(txs: Seq<Transaction>) -> Seq<Seq<char>> {
    keys_seen(txs, is_debit(), tag_key())
}

/// The sum of the debited amounts under the tag named `tag`.
pub open spec fn debited_for_tag(txs: Seq<Transaction>, tag: Seq<char>) -> nat {
    total_where(txs, TransactionType::Debit, keyed(tag_key(), tag))
}

/// Whether a debit has the tag named `tag`.
#[verifier::opaque]
pub open spec fn has_debit_under(txs: Seq<Transaction>, tag: Seq<char>) -> bool {
    exists|k: int|
        0 <= k < txs.len() && (#[trigger] txs[k]).kind == TransactionType::Debit
            && txs[k].tag.name() == tag
}

/// The sum of the transactions of `kind`.
fn sum_of_kind(transactions: &[Transaction], kind: TransactionType) -> (sum: u128)
    ensures
        sum == total_of(transactions@, kind),
{
    let mut sum: u128 = 0;
    let mut i: usize = 0;
    while i < transactions.len()
        invariant
            i <= transactions@.len(),
            sum == total_of(transactions@.take(i as int), kind),
        decreases transactions@.len() - i,
    {
        proof {
            let longer = transactions@.take(i + 1);
            assert(longer.drop_last() =~= transactions@.take(i as int));
            assert(longer.last() == transactions@[i as int]);
            lemma_total_fits(longer, kind, any());
        }
        if transactions[i].kind == kind {
            sum = sum + transactions[i].amount as u128;
        }
        i += 1;
    }
    assert(transactions@.take(i as int) =~= transactions@);
    sum
}

/// The sum of the credited amounts.
pub fn calculate_earned(transactions: &[Transaction]) -> (earned: u128)
    ensures
        earned == total_credited(transactions@),
{
    sum_of_kind(transactions, TransactionType::Credit)
}

/// The sum of the debited amounts.
pub fn calculate_spent(transactions: &[Transaction]) -> (spent: u128)
    ensures
        spent == total_debited(transactions@),
{
    sum_of_kind(transactions, TransactionType::Debit)
}

/// A balance: an amount with a sign.
#[derive(Debug, Clone, Copy, PartialEq, Eq, Structural)]
pub struct Balance {
    /// Whether more was debited than credited.
    pub negative: bool,
    /// How far the balance lies from zero, in hundredths.
    pub magnitude: u128,
}

impl View for Balance {
    type V = int;

    open spec fn view(&self) -> int {
        if self.negative {
            -(self.magnitude as int)
        } else {
            self.magnitude as int
        }
    }
}

/// What was credited less what was debited.
pub fn calculate_balance(transactions: &[Transaction]) -> (balance: Balance)
    ensures
        balance@ == total_credited(transactions@) - total_debited(transactions@),
        balance@ == balance_of(transactions@),
        balance.negative <==> total_credited(transactions@) < total_debited(transactions@),
{
    let earned = calculate_earned(transactions);
    let spent = calculate_spent(transactions);
    if earned >= spent {
        Balance { negative: false, magnitude: earned - spent }
    } else {
        Balance { negative: true, magnitude: spent - earned }
    }
}

/// What was debited under one tag.
#[derive(Debug, PartialEq, Eq)]
pub struct TagTotal {
    pub tag: Tag,
    /// In hundredths.
    pub total: u128,
}

/// What a tag total holds: the tag's name and the total.
pub struct TagTotalView {
    pub tag: Seq<char>,
    pub total: u128,
}

impl View for TagTotal {
    type V = TagTotalView;

    open spec fn view(&self) -> TagTotalView {
        TagTotalView { tag: self.tag.name(), total: self.total }
    }
}

impl Clone for TagTotal {
    fn clone(&self) -> (copy: Self)
        ensures
            copy == *self,
            copy@ == self@,
    {
        TagTotal { tag: self.tag.clone(), total: self.total }
    }
}

/// What a list of tag totals holds, entry by entry.
pub open spec fn entries_of(totals: Seq<TagTotal>) -> Seq<TagTotalView> {
    Seq::new(totals.len(), |i: int| totals[i]@)
}

/// The totals of a list of tag totals, added up.
pub open spec fn sum_of_totals(totals: Seq<TagTotal>) -> nat
    decreases totals.len(),
{
    if totals.len() == 0 {
        0
    } else {
        sum_of_totals(totals.drop_last()) + totals.last().total as nat
    }
}

/// Whether `totals` lists what was debited under each tag: one entry for each
/// tag that a debit has, in the order in which the tags first occur, and none
/// for any other tag.
pub open spec fn is_spent_per_tag(totals: Seq<TagTotal>, txs: Seq<Transaction>) -> bool {
    &&& totals.len() == debit_tags(txs).len()
    &&& forall|j: int|
        0 <= j < totals.len() ==> (#[trigger] totals[j]).tag.name() == debit_tags(txs)[j]
            && totals[j].total == debited_for_tag(txs, debit_tags(txs)[j])
}

/// What is debited under the tags of the debits adds up to all that is
/// debited.
pub proof fn lemma_tag_totals_add_up(txs: Seq<Transaction>)
    ensures
        debit_tags(txs).no_duplicates(),
        sum_of_groups(txs, TransactionType::Debit, tag_key(), debit_tags(txs)) == total_debited(txs),
{
    let tags = debit_tags(txs);
    lemma_keys_seen(txs, is_debit(), tag_key());
    lemma_groups_add_up(txs, TransactionType::Debit, tag_key(), tags);
    lemma_total_same(txs, TransactionType::Debit, keyed_in(tag_key(), tags), any());
}

/// The totals of a per-tag list add up to all that is debited.
pub proof fn lemma_spent_per_tag_adds_up(totals: Seq<TagTotal>, txs: Seq<Transaction>)
    requires
        is_spent_per_tag(totals, txs),
    ensures
        sum_of_totals(totals) == total_debited(txs),
{
    lemma_tag_totals_add_up(txs);
    lemma_totals_are_groups(totals, txs, debit_tags(txs));
}

/// A list that holds the group total of each of `tags` adds up to the sum of
/// those groups.
proof fn lemma_totals_are_groups(
    totals: Seq<TagTotal>,
    txs: Seq<Transaction>,
    tags: Seq<Seq<char>>,
)
    requires
        totals.len() == tags.len(),
        forall|j: int|
            0 <= j < totals.len() ==> (#[trigger] totals[j]).total == debited_for_tag(txs, tags[j]),
    ensures
        sum_of_totals(totals) == sum_of_groups(txs, TransactionType::Debit, tag_key(), tags),
    decreases totals.len(),
{
    if totals.len() > 0 {
        lemma_totals_are_groups(totals.drop_last(), txs, tags.drop_last());
        assert(totals.last() == totals[totals.len() - 1]);
    }
}

/// The entries of a per-tag list have different tags, and their tags are the
/// tags of the debits.
pub proof fn lemma_spent_per_tag_keys(totals: Seq<TagTotal>, txs: Seq<Transaction>)
    requires
        is_spent_per_tag(totals, txs),
    ensures
        forall|i: int, j: int|
            0 <= i < j < totals.len() ==> totals[i].tag.name() != totals[j].tag.name(),
        forall|k: int|
            0 <= k < txs.len() && txs[k].kind == TransactionType::Debit ==> exists|j: int|
                0 <= j < totals.len() && (#[trigger] totals[j]).tag.name() == txs[k].tag.name(),
        forall|j: int|
            0 <= j < totals.len() ==> has_debit_under(txs, (#[trigger] totals[j]).tag.name()),
{
    let tags = debit_tags(txs);
    lemma_keys_seen(txs, is_debit(), tag_key());
    assert forall|k: int|
        0 <= k < txs.len() && txs[k].kind == TransactionType::Debit implies exists|j: int|
        0 <= j < totals.len() && (#[trigger] totals[j]).tag.name() == txs[k].tag.name() by {
        assert(is_debit()(txs[k]));
        assert(tags.contains(tag_key()(txs[k])));
        let j = choose|j: int| 0 <= j < tags.len() && tags[j] == txs[k].tag.name();
        assert(totals[j].tag.name() == txs[k].tag.name());
    }
    assert forall|j: int| 0 <= j < totals.len() implies has_debit_under(
        txs,
        (#[trigger] totals[j]).tag.name(),
    ) by {
        reveal(has_debit_under);
        assert(tags.contains(tags[j]));
        let k = choose|k: int|
            0 <= k < txs.len() && is_debit()(#[trigger] txs[k]) && tag_key()(txs[k]) == tags[j];
        assert(txs[k].kind == TransactionType::Debit);
    }
}

/// What one more transaction adds to what is debited under a tag.
proof fn lemma_debited_grows(before: Seq<Transaction>, tx: Transaction, tag: Seq<char>)
    ensures
        debited_for_tag(before.push(tx), tag) == debited_for_tag(before, tag) + (if tx.kind
            == TransactionType::Debit && tx.tag.name() == tag {
            tx.amount as nat
        } else {
            0
        }),
{
    let now = before.push(tx);
    assert(now.drop_last() =~= before);
    assert(now.last() == tx);
    assert(keyed(tag_key(), tag)(tx) == (tx.tag.name() == tag));
}

/// A per-tag list of some transactions becomes the list of those and one
/// more when the amount of a new debit is added to the entry of its tag, or
/// put in an entry of its own at the end where its tag has none.
proof fn lemma_spent_per_tag_grows(
    t0: Seq<TagTotal>,
    t1: Seq<TagTotal>,
    before: Seq<Transaction>,
    tx: Transaction,
    at: int,
)
    requires
        is_spent_per_tag(t0, before),
        0 <= at <= t0.len(),
        tx.kind != TransactionType::Debit ==> t1 == t0,
        tx.kind == TransactionType::Debit ==> {
            &&& forall|k: int| 0 <= k < at ==> (#[trigger] t0[k]).tag.name() != tx.tag.name()
            &&& at < t0.len() ==> t0[at].tag.name() == tx.tag.name()
        },
        tx.kind == TransactionType::Debit && at < t0.len() ==> {
            &&& t1.len() == t0.len()
            &&& forall|k: int| 0 <= k < t0.len() && k != at ==> #[trigger] t1[k] == t0[k]
            &&& t1[at].tag.name() == tx.tag.name()
            &&& t1[at].total == t0[at].total + tx.amount
        },
        tx.kind == TransactionType::Debit && at == t0.len() ==> {
            &&& t1.len() == t0.len() + 1
            &&& forall|k: int| 0 <= k < t0.len() ==> #[trigger] t1[k] == t0[k]
            &&& t1[at].tag.name() == tx.tag.name()
            &&& t1[at].total == tx.amount
        },
    ensures
        is_spent_per_tag(t1, before.push(tx)),
{
    let now = before.push(tx);
    let seen = debit_tags(before);
    let name = tx.tag.name();
    assert(now.drop_last() =~= before);
    assert(now.last() == tx);
    lemma_keys_seen(before, is_debit(), tag_key());
    assert forall|tag: Seq<char>| #[trigger]
        debited_for_tag(now, tag) == debited_for_tag(before, tag) + (if tx.kind
            == TransactionType::Debit && name == tag {
            tx.amount as nat
        } else {
            0
        }) by {
        lemma_debited_grows(before, tx, tag);
    }
    if tx.kind == TransactionType::Debit {
        assert(is_debit()(tx));
        assert(tag_key()(tx) == name);
        if at < t0.len() {
            assert(seen[at] == name);
            assert(seen.contains(name));
            assert(debit_tags(now) == seen);
            assert forall|k: int| 0 <= k < t0.len() && k != at implies seen[k] != name by {}
        } else {
            assert(!seen.contains(name)) by {
                if seen.contains(name) {
                    let k = choose|k: int| 0 <= k < seen.len() && seen[k] == name;
                    assert(t0[k].tag.name() == name);
                }
            }
            assert(debit_tags(now) == seen.push(name));
            assert forall|k: int|
                0 <= k < before.len() && before[k].kind == TransactionType::Debit implies !keyed(
                tag_key(),
                name,
            )(#[trigger] before[k]) by {
                assert(is_debit()(before[k]));
                assert(seen.contains(tag_key()(before[k])));
            }
            lemma_total_none(before, TransactionType::Debit, keyed(tag_key(), name));
        }
    } else {
        assert(!is_debit()(tx));
        assert(debit_tags(now) == seen);
    }
}

/// The entry of a debit's tag has room for the debit's amount.
proof fn lemma_spent_per_tag_fits(
    t0: Seq<TagTotal>,
    before: Seq<Transaction>,
    tx: Transaction,
    at: int,
)
    requires
        is_spent_per_tag(t0, before),
        before.len() < usize::MAX,
        0 <= at < t0.len(),
        t0[at].tag.name() == tx.tag.name(),
        tx.kind == TransactionType::Debit,
    ensures
        t0[at].total + tx.amount <= u128::MAX,
{
    lemma_debited_grows(before, tx, tx.tag.name());
    lemma_total_fits(before.push(tx), TransactionType::Debit, keyed(tag_key(), tx.tag.name()));
}

/// What was debited under each tag that a debit has, in the order in which
/// the tags first occur. A tag that no debit has gets no entry.
pub fn calculate_spent_per_tag(transactions: &[Transaction]) -> (totals: Vec<TagTotal>)
    ensures
        is_spent_per_tag(totals@, transactions@),
        sum_of_totals(totals@) == total_debited(transactions@),
        forall|i: int, j: int|
            0 <= i < j < totals@.len() ==> totals@[i].tag.name() != totals@[j].tag.name(),
        forall|k: int|
            0 <= k < transactions@.len() && transactions@[k].kind == TransactionType::Debit
                ==> exists|j: int|
                0 <= j < totals@.len() && (#[trigger] totals@[j]).tag.name()
                    == transactions@[k].tag.name(),
        forall|j: int|
            0 <= j < totals@.len() ==> has_debit_under(
                transactions@,
                (#[trigger] totals@[j]).tag.name(),
            ),
{
    let mut totals: Vec<TagTotal> = Vec::new();
    let mut i: usize = 0;
    assert(transactions@.take(0) =~= Seq::<Transaction>::empty());
    while i < transactions.len()
        invariant
            i <= transactions@.len(),
            is_spent_per_tag(totals@, transactions@.take(i as int)),
        decreases transactions@.len() - i,
    {
        let ghost before = transactions@.take(i as int);
        let ghost old_totals = totals@;
        let tx = &transactions[i];
        let mut at: usize = 0;
        if tx.kind == TransactionType::Debit {
            while at < totals.len() && !totals[at].tag.same_as(&tx.tag)
                invariant
                    at <= totals@.len(),
                    forall|k: int|
                        0 <= k < at ==> (#[trigger] totals@[k]).tag.name() != tx.tag.name(),
                decreases totals@.len() - at,
            {
                at += 1;
            }
            if at < totals.len() {
                proof {
                    lemma_spent_per_tag_fits(old_totals, before, *tx, at as int);
                }
                let sum = totals[at].total + tx.amount as u128;
                totals.set(at, TagTotal { tag: tx.tag.clone(), total: sum });
            } else {
                totals.push(TagTotal { tag: tx.tag.clone(), total: tx.amount as u128 });
            }
        }
        proof {
            lemma_spent_per_tag_grows(old_totals, totals@, before, *tx, at as int);
            assert(transactions@.take(i + 1) =~= before.push(*tx));
        }
        i += 1;
    }
    proof {
        assert(transactions@.take(i as int) =~= transactions@);
        lemma_spent_per_tag_adds_up(totals@, transactions@);
        lemma_spent_per_tag_keys(totals@, transactions@);
    }
    totals
}

/// The index of the first of the transactions with the largest amount; zero
/// where there is none.
pub open spec fn index_of_largest(txs: Seq<Transaction>) -> int
    decreases txs.len(),
{
    if txs.len() <= 1 {
        0
    } else {
        let before = index_of_largest(txs.drop_last());
        if txs.last().amount > txs[before].amount {
            txs.len() - 1
        } else {
            before
        }
    }
}

/// The index of the first of the transactions with the smallest amount; zero
/// where there is none.
pub open spec fn index_of_smallest(txs: Seq<Transaction>) -> int
    decreases txs.len(),
{
    if txs.len() <= 1 {
        0
    } else {
        let before = index_of_smallest(txs.drop_last());
        if txs.last().amount < txs[before].amount {
            txs.len() - 1
        } else {
            before
        }
    }
}

/// The largest is no smaller than any, and larger than all before it.
pub proof fn lemma_index_of_largest(txs: Seq<Transaction>)
    requires
        txs.len() > 0,
    ensures
        0 <= index_of_largest(txs) < txs.len(),
        forall|j: int| 0 <= j < txs.len() ==> (#[trigger] txs[j]).amount <= txs[index_of_largest(txs)].amount,
        forall|j: int|
            0 <= j < index_of_largest(txs) ==> (#[trigger] txs[j]).amount < txs[index_of_largest(
                txs,
            )].amount,
    decreases txs.len(),
{
    if txs.len() > 1 {
        let rest = txs.drop_last();
        lemma_index_of_largest(rest);
        assert(forall|j: int| 0 <= j < rest.len() ==> rest[j] == txs[j]);
    }
}

/// The smallest is no larger than any, and smaller than all before it.
pub proof fn lemma_index_of_smallest(txs: Seq<Transaction>)
    requires
        txs.len() > 0,
    ensures
        0 <= index_of_smallest(txs) < txs.len(),
        forall|j: int|
            0 <= j < txs.len() ==> (#[trigger] txs[j]).amount >= txs[index_of_smallest(txs)].amount,
        forall|j: int|
            0 <= j < index_of_smallest(txs) ==> (#[trigger] txs[j]).amount > txs[index_of_smallest(
                txs,
            )].amount,
    decreases txs.len(),
{
    if txs.len() > 1 {
        let rest = txs.drop_last();
        lemma_index_of_smallest(rest);
        assert(forall|j: int| 0 <= j < rest.len() ==> rest[j] == txs[j]);
    }
}

/// The transaction with the largest amount, and of several the first; `None`
/// where there is no transaction.
pub fn get_largest_transaction(transactions: &[Transaction]) -> (largest: Option<Transaction>)
    ensures
        transactions@.len() == 0 ==> largest.is_none(),
        transactions@.len() > 0 ==> largest == Some(
            transactions@[index_of_largest(transactions@)],
        ),
{
    if transactions.len() == 0 {
        return None;
    }
    let mut best: usize = 0;
    let mut i: usize = 1;
    assert(transactions@.take(1).len() == 1);
    while i < transactions.len()
        invariant
            1 <= i <= transactions@.len(),
            best == index_of_largest(transactions@.take(i as int)),
            best < i,
        decreases transactions@.len() - i,
    {
        proof {
            let longer = transactions@.take(i + 1);
            assert(longer.drop_last() =~= transactions@.take(i as int));
            assert(longer.last() == transactions@[i as int]);
            assert(longer[best as int] == transactions@[best as int]);
        }
        if transactions[i].amount > transactions[best].amount {
            best = i;
        }
        i += 1;
    }
    assert(transactions@.take(i as int) =~= transactions@);
    Some(transactions[best].clone())
}

/// The transaction with the smallest amount, and of several the first; `None`
/// where there is no transaction.
pub fn get_smallest_transaction(transactions: &[Transaction]) -> (smallest: Option<Transaction>)
    ensures
        transactions@.len() == 0 ==> smallest.is_none(),
        transactions@.len() > 0 ==> smallest == Some(
            transactions@[index_of_smallest(transactions@)],
        ),
{
    if transactions.len() == 0 {
        return None;
    }
    let mut best: usize = 0;
    let mut i: usize = 1;
    assert(transactions@.take(1).len() == 1);
    while i < transactions.len()
        invariant
            1 <= i <= transactions@.len(),
            best == index_of_smallest(transactions@.take(i as int)),
            best < i,
        decreases transactions@.len() - i,
    {
        proof {
            let longer = transactions@.take(i + 1);
            assert(longer.drop_last() =~= transactions@.take(i as int));
            assert(longer.last() == transactions@[i as int]);
            assert(longer[best as int] == transactions@[best as int]);
        }
        if transactions[i].amount < transactions[best].amount {
            best = i;
        }
        i += 1;
    }
    assert(transactions@.take(i as int) =~= transactions@);
    Some(transactions[best].clone())
}

/// The transactions with the largest and with the smallest amount, in this
/// order; of several with the same amount the first. Of no transactions there
/// is neither, and of a single one that one is both.
pub fn extrema(transactions: &[Transaction]) -> (pair: (Option<Transaction>, Option<Transaction>))
    ensures
        transactions@.len() == 0 ==> pair.0.is_none() && pair.1.is_none(),
        transactions@.len() > 0 ==> pair.0 == Some(transactions@[index_of_largest(transactions@)])
            && pair.1 == Some(transactions@[index_of_smallest(transactions@)]),
        transactions@.len() == 1 ==> pair.0 == Some(transactions@[0]) && pair.1 == Some(
            transactions@[0],
        ),
{
    (get_largest_transaction(transactions), get_smallest_transaction(transactions))
}

/// Whether `a` stands before `b` in the ranking of tags: by the larger total,
/// and of two equal totals by the name of the tag.
pub open spec fn ranks_before(a: TagTotalView, b: TagTotalView) -> bool {
    a.total > b.total || (a.total == b.total && text_lt(a.tag, b.tag))
}

/// Whether `top` is in ranking order: no entry stands before one that precedes
/// it.
pub open spec fn is_ranking(top: Seq<TagTotalView>) -> bool {
    forall|i: int, j: int| 0 <= i < j < top.len() ==> !ranks_before(#[trigger] top[j], #[trigger] top[i])
}

/// The ranking is a strict order in which only equal entries tie.
pub proof fn lemma_ranking_order(a: TagTotalView, b: TagTotalView, c: TagTotalView)
    ensures
        !ranks_before(a, a),
        !(ranks_before(a, b) && ranks_before(b, a)),
        a != b ==> ranks_before(a, b) || ranks_before(b, a),
        ranks_before(a, b) && ranks_before(b, c) ==> ranks_before(a, c),
{
    lemma_text_lt_irreflexive(a.tag);
    lemma_text_lt_total(a.tag, b.tag);
    if text_lt(a.tag, b.tag) && text_lt(b.tag, c.tag) {
        lemma_text_lt_transitive(a.tag, b.tag, c.tag);
    }
}

/// The test that `a` passes with `b` when `a` may stand before `b` in a
/// ranking.
pub open spec fn ranks_no_later() -> spec_fn(TagTotalView, TagTotalView) -> bool {
    |a: TagTotalView, b: TagTotalView| !ranks_before(b, a)
}

/// The ranking of some totals does not depend on the order in which they are
/// given: two rankings of the same totals are the same.
pub proof fn lemma_ranking_unique(x: Seq<TagTotalView>, y: Seq<TagTotalView>)
    requires
        is_ranking(x),
        is_ranking(y),
        x.to_multiset() == y.to_multiset(),
    ensures
        x == y,
{
    let leq = ranks_no_later();
    assert forall|a: TagTotalView| #[trigger] leq(a, a) by {
        lemma_ranking_order(a, a, a);
    }
    assert forall|a: TagTotalView, b: TagTotalView| #[trigger] leq(a, b) && #[trigger] leq(
        b,
        a,
    ) implies a == b by {
        lemma_ranking_order(a, b, a);
    }
    assert forall|a: TagTotalView, b: TagTotalView| #[trigger] leq(a, b) || #[trigger] leq(b, a) by {
        lemma_ranking_order(a, b, a);
    }
    assert forall|a: TagTotalView, b: TagTotalView, c: TagTotalView| #[trigger]
        leq(a, b) && #[trigger] leq(b, c) implies leq(a, c) by {
        lemma_ranking_order(c, b, a);
        lemma_ranking_order(c, a, b);
        lemma_ranking_order(a, b, c);
    }
    assert(vstd::relations::sorted_by(x, leq));
    assert(vstd::relations::sorted_by(y, leq));
    vstd::seq_lib::lemma_sorted_unique(x, y, leq);
}

/// Whether `a` stands before `b` in the ranking.
fn ranks_first(a: &TagTotal, b: &TagTotal) -> (first: bool)
    ensures
        first == ranks_before(a@, b@),
{
    a.total > b.total || (a.total == b.total && a.tag.name_before(&b.tag))
}

/// The tag totals in ranking order: the largest total first, and of equal
/// totals the tag whose name comes first.
pub fn get_top_tags(per_tag: &[TagTotal]) -> (top: Vec<TagTotal>)
    ensures
        entries_of(top@).to_multiset() == entries_of(per_tag@).to_multiset(),
        top@.len() == per_tag@.len(),
        is_ranking(entries_of(top@)),
{
    let mut top: Vec<TagTotal> = Vec::new();
    let mut i: usize = 0;
    assert(entries_of(per_tag@.take(0)) =~= entries_of(top@));
    while i < per_tag.len()
        invariant
            i <= per_tag@.len(),
            top@.len() == i,
            entries_of(top@).to_multiset() == entries_of(per_tag@.take(i as int)).to_multiset(),
            is_ranking(entries_of(top@)),
        decreases per_tag@.len() - i,
    {
        let entry = per_tag[i].clone();
        let mut p: usize = 0;
        while p < top.len() && !ranks_first(&entry, &top[p])
            invariant
                p <= top@.len(),
                forall|q: int| 0 <= q < p ==> !ranks_before(entry@, (#[trigger] top@[q])@),
            decreases top@.len() - p,
        {
            p += 1;
        }
        let ghost before = entries_of(top@);
        let ghost new_entry = entry@;
        top.insert(p, entry);
        proof {
            let after = entries_of(top@);
            assert(after =~= before.insert(p as int, new_entry));
            assert(entries_of(per_tag@.take(i + 1)) =~= entries_of(per_tag@.take(i as int)).push(
                new_entry,
            ));
            vstd::seq_lib::to_multiset_build(entries_of(per_tag@.take(i as int)), new_entry);
            vstd::seq_lib::to_multiset_insert(before, p as int, new_entry);
            assert forall|a: int, b: int| 0 <= a < b < after.len() implies !ranks_before(
                #[trigger] after[b],
                #[trigger] after[a],
            ) by {
                if a == p {
                    // What followed the place of the new entry follows the entry.
                    lemma_ranking_order(after[b], new_entry, before[p as int]);
                    assert(after[b] == before[b - 1]);
                    if b - 1 > p {
                        assert(!ranks_before(before[b - 1], before[p as int]));
                    }
                } else if b == p {
                    assert(after[a] == before[a]);
                } else {
                    let a0 = if a < p { a } else { a - 1 };
                    let b0 = if b < p { b } else { b - 1 };
                    assert(after[a] == before[a0] && after[b] == before[b0]);
                    assert(!ranks_before(before[b0], before[a0]));
                }
            }
        }
        i += 1;
    }
    assert(per_tag@.take(i as int) =~= per_tag@);
    top
}

/// The month of a date: its first seven characters, or all of it where it is
/// shorter.
pub open spec fn month_text(date: Seq<char>) -> Seq<char> {
    if date.len() >= 7 {
        date.take(7)
    } else {
        date
    }
}

/// The key by which transactions are grouped by month.
pub open spec fn month_key() -> spec_fn(Transaction) -> Seq<char> {
    |tx: Transaction| month_text(tx.date@)
}

/// The sum of the amounts of `kind` in `month`.
pub open spec fn total_in_month(
    txs: Seq<Transaction>,
    kind: TransactionType,
    month: Seq<char>,
) -> nat {
    total_where(txs, kind, keyed(month_key(), month))
}

/// Whether a transaction falls in `month`.
#[verifier::opaque]
pub open spec fn has_month(txs: Seq<Transaction>, month: Seq<char>) -> bool {
    exists|k: int| 0 <= k < txs.len() && month_text((#[trigger] txs[k]).date@) == month
}

/// What was credited and debited in one month.
#[derive(Debug, PartialEq, Eq)]
pub struct MonthlyBucket {
    /// The month, as `YYYY-MM`.
    pub month: String,
    /// In hundredths.
    pub credited: u128,
    /// In hundredths.
    pub debited: u128,
}

impl Clone for MonthlyBucket {
    fn clone(&self) -> (copy: Self)
        ensures
            copy == *self,
    {
        MonthlyBucket { month: self.month.clone(), credited: self.credited, debited: self.debited }
    }
}

impl MonthlyBucket {
    /// The bucket's total of `kind`.
    pub open spec fn total(self, kind: TransactionType) -> nat {
        match kind {
            TransactionType::Credit => self.credited as nat,
            TransactionType::Debit => self.debited as nat,
        }
    }
}

/// The months of a list of buckets.
pub open spec fn months_of(buckets: Seq<MonthlyBucket>) -> Seq<Seq<char>> {
    Seq::new(buckets.len(), |i: int| buckets[i].month@)
}

/// The totals of `kind` of a list of buckets, added up.
pub open spec fn sum_of_buckets(buckets: Seq<MonthlyBucket>, kind: TransactionType) -> nat
    decreases buckets.len(),
{
    if buckets.len() == 0 {
        0
    } else {
        sum_of_buckets(buckets.drop_last(), kind) + buckets.last().total(kind)
    }
}

/// The sum of the amounts of `kind` in the months of `buckets`.
pub open spec fn total_in_window(
    txs: Seq<Transaction>,
    kind: TransactionType,
    buckets: Seq<MonthlyBucket>,
) -> nat {
    total_where(txs, kind, keyed_in(month_key(), months_of(buckets)))
}

/// Whether `buckets` is the history of the last `window` months of `txs`: the
/// months in which a transaction falls, the newest first and each once, with
/// what was credited and debited in each; and of those months the `window`
/// newest, or all where there are fewer.
pub open spec fn is_monthly_history(
    buckets: Seq<MonthlyBucket>,
    txs: Seq<Transaction>,
    window: nat,
) -> bool {
    &&& buckets.len() <= window
    &&& forall|i: int, j: int|
        0 <= i < j < buckets.len() ==> text_lt(
            (#[trigger] buckets[j]).month@,
            (#[trigger] buckets[i]).month@,
        )
    &&& forall|i: int|
        0 <= i < buckets.len() ==> {
            &&& has_month(txs, (#[trigger] buckets[i]).month@)
            &&& buckets[i].credited == total_in_month(
                txs,
                TransactionType::Credit,
                buckets[i].month@,
            )
            &&& buckets[i].debited == total_in_month(txs, TransactionType::Debit, buckets[i].month@)
        }
    &&& forall|k: int|
        0 <= k < txs.len() ==> {
            ||| months_of(buckets).contains(month_text((#[trigger] txs[k]).date@))
            ||| {
                &&& buckets.len() == window
                &&& forall|i: int|
                    0 <= i < buckets.len() ==> text_lt(
                        month_text(txs[k].date@),
                        (#[trigger] buckets[i]).month@,
                    )
            }
        }
}

/// The buckets' totals are the totals of the groups of their months.
proof fn lemma_buckets_are_groups(
    buckets: Seq<MonthlyBucket>,
    txs: Seq<Transaction>,
    kind: TransactionType,
)
    requires
        forall|i: int|
            0 <= i < buckets.len() ==> (#[trigger] buckets[i]).total(kind) == total_in_month(
                txs,
                kind,
                buckets[i].month@,
            ),
    ensures
        sum_of_buckets(buckets, kind) == sum_of_groups(txs, kind, month_key(), months_of(buckets)),
    decreases buckets.len(),
{
    if buckets.len() > 0 {
        let rest = buckets.drop_last();
        lemma_buckets_are_groups(rest, txs, kind);
        assert(months_of(buckets).drop_last() =~= months_of(rest));
        assert(months_of(buckets).last() == buckets[buckets.len() - 1].month@);
    }
}

/// The buckets of a monthly history add up to what was credited, and to what
/// was debited, in the months that the history shows.
pub proof fn lemma_history_adds_up(
    buckets: Seq<MonthlyBucket>,
    txs: Seq<Transaction>,
    window: nat,
    kind: TransactionType,
)
    requires
        is_monthly_history(buckets, txs, window),
    ensures
        months_of(buckets).no_duplicates(),
        sum_of_buckets(buckets, kind) == total_in_window(txs, kind, buckets),
{
    let months = months_of(buckets);
    assert forall|i: int, j: int| 0 <= i < months.len() && 0 <= j < months.len() && i != j implies months[i]
        != months[j] by {
        if i < j {
            lemma_text_lt_total(buckets[j].month@, buckets[i].month@);
        } else {
            lemma_text_lt_total(buckets[i].month@, buckets[j].month@);
        }
    }
    lemma_buckets_are_groups(buckets, txs, kind);
    lemma_groups_add_up(txs, kind, month_key(), months);
}

/// The characters of the month of a date.
fn month_chars(date: &str) -> (month: Vec<char>)
    ensures
        month@ == month_text(date@),
{
    let mut month = chars_of(date);
    if month.len() >= 7 {
        month.truncate(7);
    }
    month
}

/// Whether one of `months` is `month`.
spec fn listed(months: Seq<Vec<char>>, month: Seq<char>) -> bool {
    exists|j: int| 0 <= j < months.len() && (#[trigger] months[j])@ == month
}

/// Whether the three lists hold, month by month and the newest first, what
/// was credited and debited in each month in which a transaction of `txs`
/// falls.
spec fn is_tally(
    months: Seq<Vec<char>>,
    credited: Seq<u128>,
    debited: Seq<u128>,
    txs: Seq<Transaction>,
) -> bool {
    &&& months.len() == credited.len() == debited.len()
    &&& forall|a: int, b: int|
        0 <= a < b < months.len() ==> text_lt((#[trigger] months[b])@, (#[trigger] months[a])@)
    &&& forall|j: int|
        0 <= j < months.len() ==> {
            &&& has_month(txs, (#[trigger] months[j])@)
            &&& credited[j] == total_in_month(txs, TransactionType::Credit, months[j]@)
            &&& debited[j] == total_in_month(txs, TransactionType::Debit, months[j]@)
        }
    &&& forall|k: int| 0 <= k < txs.len() ==> listed(months, month_text((#[trigger] txs[k]).date@))
}

/// What `tx` adds to the sum of `kind`.
spec fn part(tx: Transaction, kind: TransactionType) -> nat {
    if tx.kind == kind {
        tx.amount as nat
    } else {
        0
    }
}

/// A tally of some transactions becomes the tally of those and one more when
/// the amount is added to the month of the new transaction, and that month is
/// put in its place of the order where the tally did not hold it.
proof fn lemma_tally_grows(
    m0: Seq<Vec<char>>,
    c0: Seq<u128>,
    d0: Seq<u128>,
    m1: Seq<Vec<char>>,
    c1: Seq<u128>,
    d1: Seq<u128>,
    before: Seq<Transaction>,
    tx: Transaction,
    p: int,
    found: bool,
)
    requires
        is_tally(m0, c0, d0, before),
        0 <= p <= m0.len(),
        forall|q: int| 0 <= q < p ==> text_lt(month_text(tx.date@), (#[trigger] m0[q])@),
        p < m0.len() ==> !text_lt(month_text(tx.date@), m0[p]@),
        found == (p < m0.len() && m0[p]@ == month_text(tx.date@)),
        found ==> {
            &&& m1 == m0
            &&& c1.len() == c0.len()
            &&& d1.len() == d0.len()
            &&& forall|j: int|
                0 <= j < c0.len() ==> #[trigger] c1[j] == c0[j] + (if j == p {
                    part(tx, TransactionType::Credit)
                } else {
                    0
                })
            &&& forall|j: int|
                0 <= j < d0.len() ==> #[trigger] d1[j] == d0[j] + (if j == p {
                    part(tx, TransactionType::Debit)
                } else {
                    0
                })
        },
        !found ==> {
            &&& m1.len() == m0.len() + 1
            &&& m1[p]@ == month_text(tx.date@)
            &&& forall|j: int| 0 <= j < p ==> #[trigger] m1[j] == m0[j]
            &&& forall|j: int| p < j < m1.len() ==> #[trigger] m1[j] == m0[j - 1]
            &&& c1 == c0.insert(p, part(tx, TransactionType::Credit) as u128)
            &&& d1 == d0.insert(p, part(tx, TransactionType::Debit) as u128)
        },
    ensures
        is_tally(m1, c1, d1, before.push(tx)),
{
    reveal(has_month);
    let now = before.push(tx);
    let month = month_text(tx.date@);
    assert(now.drop_last() =~= before);
    assert(now.last() == tx);
    assert forall|k: int| 0 <= k < before.len() implies #[trigger] now[k] == before[k] by {}
    // What each month holds once the new transaction is counted.
    assert forall|x: Seq<char>, kind: TransactionType| #[trigger]
        total_in_month(now, kind, x) == total_in_month(before, kind, x) + (if x == month {
            part(tx, kind)
        } else {
            0
        }) by {
        assert(keyed(month_key(), x)(tx) == (month == x));
    }
    assert forall|x: Seq<char>| #[trigger] has_month(before, x) implies has_month(now, x) by {
        let k = choose|k: int| 0 <= k < before.len() && month_text((#[trigger] before[k]).date@) == x;
        assert(month_text(now[k].date@) == x);
    }
    assert(has_month(now, month)) by {
        assert(month_text(now[now.len() - 1].date@) == month);
    }
    // The months that differ from the new transaction's.
    assert forall|j: int| 0 <= j < m0.len() && !(found && j == p) implies (#[trigger] m0[j])@
        != month && (j >= p ==> text_lt(m0[j]@, month)) by {
        lemma_text_lt_total(month, m0[j]@);
        if j >= p {
            lemma_text_lt_total(month, m0[p]@);
            if j > p {
                assert(text_lt(m0[j]@, m0[p]@));
                if found {
                    lemma_text_lt_total(m0[j]@, m0[p]@);
                } else {
                    lemma_text_lt_transitive(m0[j]@, m0[p]@, month);
                }
            }
        }
    }
    if found {
        assert forall|k: int| 0 <= k < now.len() implies listed(
            m1,
            month_text((#[trigger] now[k]).date@),
        ) by {
            if k < before.len() {
                assert(listed(m0, month_text(before[k].date@)));
            } else {
                assert(m1[p]@ == month);
            }
        }
        assert(is_tally(m1, c1, d1, now));
    } else {
        // No earlier transaction falls in the new month.
        assert forall|k: int| 0 <= k < before.len() implies month_text((#[trigger] before[k]).date@)
            != month by {
            let x = month_text(before[k].date@);
            assert(listed(m0, x));
            let j = choose|j: int| 0 <= j < m0.len() && (#[trigger] m0[j])@ == x;
            assert(m0[j]@ != month);
        }
        assert forall|kind: TransactionType| #[trigger] total_in_month(before, kind, month) == 0 by {
            assert forall|k: int| 0 <= k < before.len() && before[k].kind == kind implies !keyed(
                month_key(),
                month,
            )(#[trigger] before[k]) by {
                assert(month_text(before[k].date@) != month);
            }
            lemma_total_none(before, kind, keyed(month_key(), month));
        }
        assert forall|a: int, b: int| 0 <= a < b < m1.len() implies text_lt(
            (#[trigger] m1[b])@,
            (#[trigger] m1[a])@,
        ) by {
            if b == p {
                assert(m1[a] == m0[a]);
            } else if a == p {
                assert(m1[b] == m0[b - 1]);
            } else {
                let a0 = if a < p { a } else { a - 1 };
                let b0 = if b < p { b } else { b - 1 };
                assert(m1[a] == m0[a0] && m1[b] == m0[b0]);
                assert(text_lt(m0[b0]@, m0[a0]@));
            }
        }
        assert forall|j: int| 0 <= j < m1.len() implies {
            &&& has_month(now, (#[trigger] m1[j])@)
            &&& c1[j] == total_in_month(now, TransactionType::Credit, m1[j]@)
            &&& d1[j] == total_in_month(now, TransactionType::Debit, m1[j]@)
        } by {
            if j != p {
                let j0 = if j < p { j } else { j - 1 };
                assert(m1[j] == m0[j0]);
                assert(m0[j0]@ != month);
                assert(has_month(before, m0[j0]@));
            }
        }
        assert forall|k: int| 0 <= k < now.len() implies listed(
            m1,
            month_text((#[trigger] now[k]).date@),
        ) by {
            if k < before.len() {
                let x = month_text(before[k].date@);
                assert(listed(m0, x));
                let j = choose|j: int| 0 <= j < m0.len() && (#[trigger] m0[j])@ == x;
                let j1 = if j < p { j } else { j + 1 };
                assert(m1[j1] == m0[j]);
            } else {
                assert(m1[p]@ == month);
            }
        }
        assert(is_tally(m1, c1, d1, now));
    }
}

/// The history of the `window` newest months in which a transaction falls,
/// the newest first: for each month what was credited and what was debited.
pub fn monthly_history(transactions: &[Transaction], window: usize) -> (history: Vec<
    MonthlyBucket,
>)
    ensures
        is_monthly_history(history@, transactions@, window as nat),
        sum_of_buckets(history@, TransactionType::Credit) == total_in_window(
            transactions@,
            TransactionType::Credit,
            history@,
        ),
        sum_of_buckets(history@, TransactionType::Debit) == total_in_window(
            transactions@,
            TransactionType::Debit,
            history@,
        ),
{
    let mut months: Vec<Vec<char>> = Vec::new();
    let mut credited: Vec<u128> = Vec::new();
    let mut debited: Vec<u128> = Vec::new();
    let mut i: usize = 0;
    while i < transactions.len()
        invariant
            i <= transactions@.len(),
            is_tally(months@, credited@, debited@, transactions@.take(i as int)),
        decreases transactions@.len() - i,
    {
        let ghost before = transactions@.take(i as int);
        let ghost now = transactions@.take(i + 1);
        let tx = &transactions[i];
        let month = month_chars(tx.date.as_str());
        let mut p: usize = 0;
        while p < months.len() && text_less(&month, &months[p])
            invariant
                p <= months@.len(),
                forall|q: int| 0 <= q < p ==> text_lt(month@, (#[trigger] months@[q])@),
            decreases months@.len() - p,
        {
            p += 1;
        }
        let found = p < months.len() && !text_less(&months[p], &month);
        proof {
            assert(now =~= before.push(*tx));
            assert(now.drop_last() =~= before);
            lemma_total_fits(now, TransactionType::Credit, keyed(month_key(), month@));
            lemma_total_fits(now, TransactionType::Debit, keyed(month_key(), month@));
            if p < months.len() {
                lemma_text_lt_total(months@[p as int]@, month@);
            }
        }
        let ghost old_months = months@;
        let ghost old_credited = credited@;
        let ghost old_debited = debited@;
        if found {
            match tx.kind {
                TransactionType::Credit => {
                    let sum = credited[p];
                    credited.set(p, sum + tx.amount as u128);
                },
                TransactionType::Debit => {
                    let sum = debited[p];
                    debited.set(p, sum + tx.amount as u128);
                },
            }
        } else {
            months.insert(p, month);
            match tx.kind {
                TransactionType::Credit => {
                    credited.insert(p, tx.amount as u128);
                    debited.insert(p, 0);
                },
                TransactionType::Debit => {
                    credited.insert(p, 0);
                    debited.insert(p, tx.amount as u128);
                },
            }
        }
        proof {
            lemma_tally_grows(
                old_months,
                old_credited,
                old_debited,
                months@,
                credited@,
                debited@,
                before,
                *tx,
                p as int,
                found,
            );
        }
        i += 1;
    }
    assert(transactions@.take(i as int) =~= transactions@);

    let count = if window < months.len() {
        window
    } else {
        months.len()
    };
    let mut history: Vec<MonthlyBucket> = Vec::new();
    let mut j: usize = 0;
    while j < count
        invariant
            j <= count <= months@.len(),
            months@.len() == credited@.len() == debited@.len(),
            history@.len() == j,
            forall|a: int|
                0 <= a < j ==> {
                    &&& (#[trigger] history@[a]).month@ == months@[a]@
                    &&& history@[a].credited == credited@[a]
                    &&& history@[a].debited == debited@[a]
                },
        decreases count - j,
    {
        history.push(
            MonthlyBucket { month: text_of(&months[j]), credited: credited[j], debited: debited[j] },
        );
        j += 1;
    }
    proof {
        let txs = transactions@;
        assert forall|k: int| 0 <= k < txs.len() implies {
            ||| months_of(history@).contains(month_text((#[trigger] txs[k]).date@))
            ||| {
                &&& history@.len() == window
                &&& forall|a: int|
                    0 <= a < history@.len() ==> text_lt(
                        month_text(txs[k].date@),
                        (#[trigger] history@[a]).month@,
                    )
            }
        } by {
            let m = month_text(txs[k].date@);
            assert(listed(months@, m));
            let at = choose|at: int| 0 <= at < months@.len() && (#[trigger] months@[at])@ == m;
            if at < count {
                assert(months_of(history@)[at] == m);
            } else {
                assert forall|a: int| 0 <= a < history@.len() implies text_lt(
                    m,
                    (#[trigger] history@[a]).month@,
                ) by {
                    assert(text_lt(months@[at]@, months@[a]@));
                }
            }
        }
        assert(is_monthly_history(history@, txs, window as nat));
        lemma_history_adds_up(history@, txs, window as nat, TransactionType::Credit);
        lemma_history_adds_up(history@, txs, window as nat, TransactionType::Debit);
    }
    history
}

/// How many months the report's history shows.
pub const HISTORY_MONTHS: usize = 6;

/// The history of the six newest months in which a transaction falls, the
/// newest first: for each month what was credited and what was debited.
pub fn calculate_monthly_history(transactions: &[Transaction]) -> (history: Vec<MonthlyBucket>)
    ensures
        history@.len() <= 6,
        is_monthly_history(history@, transactions@, 6),
        sum_of_buckets(history@, TransactionType::Credit) == total_in_window(
            transactions@,
            TransactionType::Credit,
            history@,
        ),
        sum_of_buckets(history@, TransactionType::Debit) == total_in_window(
            transactions@,
            TransactionType::Debit,
            history@,
        ),
{
    monthly_history(transactions, HISTORY_MONTHS)
}

} // verus!
