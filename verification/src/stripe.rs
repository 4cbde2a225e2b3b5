//! The mathematical model of a striped ledger: a sequence of stripes, each a
//! sorted sequence of `(id, balance)` pairs, and what the ledger's
//! operations do to it.

use crate::bucket::{
    after_insert, after_update, has_key, index_of, insertion_point, lemma_after_insert,
    lemma_after_update, lemma_insertion_point_exists, lookup, strictly_increasing,
};
use vstd::prelude::*;

verus! {

/// Why a transfer was refused.
#[derive(Debug, Clone, Copy, PartialEq, Eq, Structural)]
pub enum AccountError {
    /// One of the two accounts was never added.
    DoesNotExist,
    /// One of the two new balances cannot be represented.
    Overflow,
}

/// The entries of one stripe.
pub type Entries = Seq<(usize, i64)>;

/// The stripes of a ledger, by index.
pub type Stripes = Seq<Seq<(usize, i64)>>;

/// The stripe that owns `id` in a ledger of `count` stripes.
pub open spec fn stripe_of(id: usize, count: nat) -> int {
    id as int % count as int
}

/// Stripe `index` of `count` is sorted and holds only ids that belong there.
pub open spec fn stripe_wf(entries: Entries, index: int, count: nat) -> bool {
    &&& strictly_increasing(entries)
    &&& forall|i: int| 0 <= i < entries.len() ==> stripe_of(#[trigger] entries[i].0, count) == index
}

/// The ledger's invariant: there is a stripe, and every stripe is well formed.
pub open spec fn stripes_wf(stripes: Stripes) -> bool {
    &&& stripes.len() > 0
    &&& forall|s: int| 0 <= s < stripes.len() ==> stripe_wf(#[trigger] stripes[s], s, stripes.len())
}

/// A ledger of `count` stripes without accounts.
pub open spec fn empty_stripes(count: nat) -> Stripes {
    Seq::new(count, |s: int| Seq::<(usize, i64)>::empty())
}

/// The ids of one stripe, in the order of its entries.
pub open spec fn keys_of(entries: Entries) -> Seq<usize> {
    Seq::new(entries.len(), |i: int| entries[i].0)
}

/// An id is among the ids of a stripe exactly if the stripe has an entry,
/// hence a balance, for it.
pub proof fn lemma_keys_of(entries: Entries, id: usize)
    ensures
        keys_of(entries).contains(id) <==> has_key(entries, id),
        keys_of(entries).contains(id) <==> lookup(entries, id) is Some,
{
    if keys_of(entries).contains(id) {
        let i = choose|i: int| 0 <= i < keys_of(entries).len() && keys_of(entries)[i] == id;
        assert(entries[i].0 == id);
    }
    if has_key(entries, id) {
        let i = index_of(entries, id);
        assert(keys_of(entries)[i] == id);
    }
}

/// The number of ids in `keys`, which lists the ids of each stripe.
pub open spec fn count_keys(keys: Seq<Seq<usize>>) -> int
    decreases keys.len(),
{
    if keys.len() == 0 {
        0
    } else {
        count_keys(keys.drop_last()) + keys.last().len()
    }
}

/// Stripes that hold the ids `keys` have as many accounts as `keys` has ids.
pub proof fn lemma_count_keys(stripes: Stripes, keys: Seq<Seq<usize>>)
    requires
        stripes.len() == keys.len(),
        forall|s: int| 0 <= s < stripes.len() ==> keys_of(#[trigger] stripes[s]) == keys[s],
    ensures
        account_count(stripes) == count_keys(keys),
    decreases stripes.len(),
{
    if stripes.len() > 0 {
        let last = stripes.len() - 1;
        assert(keys_of(stripes[last]) == keys[last]);
        assert forall|s: int| 0 <= s < stripes.drop_last().len() implies keys_of(
            #[trigger] stripes.drop_last()[s],
        ) == keys.drop_last()[s] by {
            assert(stripes.drop_last()[s] == stripes[s]);
        }
        lemma_count_keys(stripes.drop_last(), keys.drop_last());
    }
}

/// Replacing the ids of one stripe changes the number of ids by the
/// difference of the two lengths.
pub proof fn lemma_count_keys_update(keys: Seq<Seq<usize>>, index: int, changed: Seq<usize>)
    requires
        0 <= index < keys.len(),
    ensures
        count_keys(keys.update(index, changed)) == count_keys(keys) - keys[index].len()
            + changed.len(),
    decreases keys.len(),
{
    let after = keys.update(index, changed);
    if index == keys.len() - 1 {
        assert(after.drop_last() =~= keys.drop_last());
    } else {
        assert(after.drop_last() =~= keys.drop_last().update(index, changed));
        lemma_count_keys_update(keys.drop_last(), index, changed);
    }
}

/// Stripes without ids have no ids in all.
pub proof fn lemma_count_keys_empty(keys: Seq<Seq<usize>>)
    requires
        forall|s: int| 0 <= s < keys.len() ==> (#[trigger] keys[s]).len() == 0,
    ensures
        count_keys(keys) == 0,
    decreases keys.len(),
{
    if keys.len() > 0 {
        assert(keys[keys.len() - 1].len() == 0);
        assert forall|s: int| 0 <= s < keys.drop_last().len() implies (
        #[trigger] keys.drop_last()[s]).len() == 0 by {
            assert(keys.drop_last()[s] == keys[s]);
        }
        lemma_count_keys_empty(keys.drop_last());
    }
}

/// The balance of account `id`, if the account exists.
pub open spec fn balance_of(stripes: Stripes, id: usize) -> Option<i64> {
    lookup(stripes[stripe_of(id, stripes.len())], id)
}

/// The sum of the balances of one stripe.
pub open spec fn entries_sum(entries: Entries) -> int
    decreases entries.len(),
{
    if entries.len() == 0 {
        0
    } else {
        entries_sum(entries.drop_last()) + entries.last().1
    }
}

/// The sum of all balances of the ledger.
pub open spec fn total(stripes: Stripes) -> int
    decreases stripes.len(),
{
    if stripes.len() == 0 {
        0
    } else {
        total(stripes.drop_last()) + entries_sum(stripes.last())
    }
}

/// The number of accounts of the ledger.
pub open spec fn account_count(stripes: Stripes) -> int
    decreases stripes.len(),
{
    if stripes.len() == 0 {
        0
    } else {
        account_count(stripes.drop_last()) + stripes.last().len()
    }
}

/// The ledger after the balance of account `id` was set to `balance`;
/// `stripes` itself where there is no such account.
pub open spec fn with_balance(stripes: Stripes, id: usize, balance: i64) -> Stripes {
    let s = stripe_of(id, stripes.len());
    stripes.update(s, after_update(stripes[s], id, balance))
}

/// The ledger after account `id` was added with `balance`; `stripes` itself
/// where the account is there already.
pub open spec fn with_account(stripes: Stripes, id: usize, balance: i64) -> Stripes {
    let s = stripe_of(id, stripes.len());
    stripes.update(s, after_insert(stripes[s], id, balance))
}

/// `value` is a balance that an account can hold.
pub open spec fn fits(value: int) -> bool {
    i64::MIN <= value <= i64::MAX
}

/// What moving `amount` between two balances comes to: the pair of new
/// balances, or `Overflow` where one of them cannot be held.
pub open spec fn settled(from_balance: i64, to_balance: i64, amount: i64) -> Result<
    (i64, i64),
    AccountError,
> {
    if fits(from_balance - amount) && fits(to_balance + amount) {
        Ok(((from_balance - amount) as i64, (to_balance + amount) as i64))
    } else {
        Err(AccountError::Overflow)
    }
}

/// What moving `amount` between two accounts comes to, given what a lookup
/// of each returned: `DoesNotExist` where one is absent, else what `settled`
/// says of the two balances.
pub open spec fn moved(from_balance: Option<i64>, to_balance: Option<i64>, amount: i64) -> Result<
    (i64, i64),
    AccountError,
> {
    match (from_balance, to_balance) {
        (Some(f), Some(t)) => settled(f, t, amount),
        _ => Err(AccountError::DoesNotExist),
    }
}

/// The answer of a transfer whose new balances are `balances`.
pub open spec fn verdict(balances: Result<(i64, i64), AccountError>) -> Result<(), AccountError> {
    match balances {
        Ok(_) => Ok(()),
        Err(error) => Err(error),
    }
}

/// What a transfer answers in the state `stripes`.
pub open spec fn transfer_result(stripes: Stripes, from: usize, to: usize, amount: i64) -> Result<
    (),
    AccountError,
> {
    if from == to {
        Ok(())
    } else {
        verdict(moved(balance_of(stripes, from), balance_of(stripes, to), amount))
    }
}

/// The state that a transfer leaves: `amount` moved from `from` to `to` where
/// the transfer succeeds and the accounts differ, `stripes` itself otherwise.
pub open spec fn after_transfer(stripes: Stripes, from: usize, to: usize, amount: i64) -> Stripes {
    if from == to {
        stripes
    } else {
        match moved(balance_of(stripes, from), balance_of(stripes, to), amount) {
            Ok((debited, credited)) => with_balance(
                with_balance(stripes, from, debited),
                to,
                credited,
            ),
            Err(_) => stripes,
        }
    }
}

/// Replacing one entry changes the stripe's sum by the difference of the two
/// balances.
pub proof fn lemma_entries_sum_update(entries: Entries, index: int, entry: (usize, i64))
    requires
        0 <= index < entries.len(),
    ensures
        entries_sum(entries.update(index, entry)) == entries_sum(entries) - entries[index].1
            + entry.1,
    decreases entries.len(),
{
    let changed = entries.update(index, entry);
    if index == entries.len() - 1 {
        assert(changed.drop_last() =~= entries.drop_last());
    } else {
        assert(changed.drop_last() =~= entries.drop_last().update(index, entry));
        lemma_entries_sum_update(entries.drop_last(), index, entry);
    }
}

/// Replacing one stripe changes the total by the difference of the two sums,
/// and the number of accounts by the difference of the two lengths.
pub proof fn lemma_total_update(stripes: Stripes, index: int, entries: Entries)
    requires
        0 <= index < stripes.len(),
    ensures
        total(stripes.update(index, entries)) == total(stripes) - entries_sum(stripes[index])
            + entries_sum(entries),
        account_count(stripes.update(index, entries)) == account_count(stripes)
            - stripes[index].len() + entries.len(),
    decreases stripes.len(),
{
    let changed = stripes.update(index, entries);
    if index == stripes.len() - 1 {
        assert(changed.drop_last() =~= stripes.drop_last());
    } else {
        assert(changed.drop_last() =~= stripes.drop_last().update(index, entries));
        lemma_total_update(stripes.drop_last(), index, entries);
    }
}

/// What setting the balance of an existing account does to its stripe.
pub proof fn lemma_stripe_after_update(
    entries: Entries,
    id: usize,
    balance: i64,
    index: int,
    count: nat,
)
    requires
        stripe_wf(entries, index, count),
        has_key(entries, id),
    ensures
        stripe_wf(after_update(entries, id, balance), index, count),
        after_update(entries, id, balance).len() == entries.len(),
        lookup(after_update(entries, id, balance), id) == Some(balance),
        forall|other: usize|
            other != id ==> lookup(after_update(entries, id, balance), other) == lookup(
                entries,
                other,
            ),
        entries_sum(after_update(entries, id, balance)) == entries_sum(entries) - lookup(
            entries,
            id,
        ).unwrap() + balance,
{
    let changed = after_update(entries, id, balance);
    lemma_after_update(entries, id, balance);
    assert forall|i: int| 0 <= i < changed.len() implies stripe_of(
        #[trigger] changed[i].0,
        count,
    ) == index by {
        assert(changed[i].0 == entries[i].0);
    }
    lemma_entries_sum_update(entries, index_of(entries, id), (id, balance));
}

/// What replacing the balance of an existing account does to the ledger: the
/// invariant holds on, the account has the new balance, every other account
/// keeps its own, and the total moves by the difference.
pub proof fn lemma_with_balance(stripes: Stripes, id: usize, balance: i64)
    requires
        stripes_wf(stripes),
        balance_of(stripes, id) is Some,
    ensures
        stripes_wf(with_balance(stripes, id, balance)),
        with_balance(stripes, id, balance).len() == stripes.len(),
        balance_of(with_balance(stripes, id, balance), id) == Some(balance),
        forall|other: usize|
            other != id ==> balance_of(with_balance(stripes, id, balance), other) == balance_of(
                stripes,
                other,
            ),
        total(with_balance(stripes, id, balance)) == total(stripes) - balance_of(
            stripes,
            id,
        ).unwrap() + balance,
        account_count(with_balance(stripes, id, balance)) == account_count(stripes),
{
    let count = stripes.len();
    let s = stripe_of(id, count);
    let changed = with_balance(stripes, id, balance);
    lemma_stripe_after_update(stripes[s], id, balance, s, count);
    lemma_total_update(stripes, s, after_update(stripes[s], id, balance));
    assert forall|t: int| 0 <= t < changed.len() implies stripe_wf(
        #[trigger] changed[t],
        t,
        changed.len(),
    ) by {
        if t != s {
            assert(changed[t] == stripes[t]);
        }
    }
    assert forall|other: usize| other != id implies balance_of(changed, other) == balance_of(
        stripes,
        other,
    ) by {
        let t = stripe_of(other, count);
        if t != s {
            assert(changed[t] == stripes[t]);
        }
    }
}

/// Putting one entry in changes the stripe's sum by its balance.
pub proof fn lemma_entries_sum_insert(entries: Entries, index: int, entry: (usize, i64))
    requires
        0 <= index <= entries.len(),
    ensures
        entries_sum(entries.insert(index, entry)) == entries_sum(entries) + entry.1,
    decreases entries.len(),
{
    let grown = entries.insert(index, entry);
    if index == entries.len() {
        assert(grown.drop_last() =~= entries);
    } else {
        assert(grown.drop_last() =~= entries.drop_last().insert(index, entry));
        lemma_entries_sum_insert(entries.drop_last(), index, entry);
    }
}

/// What adding a new account does to its stripe.
pub proof fn lemma_stripe_after_insert(
    entries: Entries,
    id: usize,
    balance: i64,
    index: int,
    count: nat,
)
    requires
        stripe_wf(entries, index, count),
        stripe_of(id, count) == index,
        !has_key(entries, id),
    ensures
        stripe_wf(after_insert(entries, id, balance), index, count),
        after_insert(entries, id, balance).len() == entries.len() + 1,
        lookup(after_insert(entries, id, balance), id) == Some(balance),
        forall|other: usize|
            other != id ==> lookup(after_insert(entries, id, balance), other) == lookup(
                entries,
                other,
            ),
        entries_sum(after_insert(entries, id, balance)) == entries_sum(entries) + balance,
{
    lemma_insertion_point_exists(entries, id);
    lemma_after_insert(entries, id, balance);
    let at = insertion_point(entries, id);
    let grown = after_insert(entries, id, balance);
    assert forall|i: int| 0 <= i < grown.len() implies stripe_of(#[trigger] grown[i].0, count)
        == index by {
        if i < at {
            assert(grown[i].0 == entries[i].0);
        } else if i > at {
            assert(grown[i].0 == entries[i - 1].0);
        }
    }
    lemma_entries_sum_insert(entries, at, (id, balance));
}

/// What adding a new account does to the ledger: the invariant holds on, the
/// account has its balance, every other account keeps its own, and the total
/// grows by the balance.
pub proof fn lemma_with_account(stripes: Stripes, id: usize, balance: i64)
    requires
        stripes_wf(stripes),
        balance_of(stripes, id) is None,
    ensures
        stripes_wf(with_account(stripes, id, balance)),
        with_account(stripes, id, balance).len() == stripes.len(),
        balance_of(with_account(stripes, id, balance), id) == Some(balance),
        forall|other: usize|
            other != id ==> balance_of(with_account(stripes, id, balance), other) == balance_of(
                stripes,
                other,
            ),
        total(with_account(stripes, id, balance)) == total(stripes) + balance,
        account_count(with_account(stripes, id, balance)) == account_count(stripes) + 1,
{
    let count = stripes.len();
    let s = stripe_of(id, count);
    let grown = with_account(stripes, id, balance);
    lemma_stripe_after_insert(stripes[s], id, balance, s, count);
    lemma_total_update(stripes, s, after_insert(stripes[s], id, balance));
    assert forall|t: int| 0 <= t < grown.len() implies stripe_wf(
        #[trigger] grown[t],
        t,
        grown.len(),
    ) by {
        if t != s {
            assert(grown[t] == stripes[t]);
        }
    }
    assert forall|other: usize| other != id implies balance_of(grown, other) == balance_of(
        stripes,
        other,
    ) by {
        let t = stripe_of(other, count);
        if t != s {
            assert(grown[t] == stripes[t]);
        }
    }
}

/// A ledger without accounts is well formed, has no balance to give and
/// sums to zero.
pub proof fn lemma_empty_stripes(count: nat)
    requires
        count > 0,
    ensures
        stripes_wf(empty_stripes(count)),
        total(empty_stripes(count)) == 0,
        account_count(empty_stripes(count)) == 0,
        forall|id: usize| balance_of(empty_stripes(count), id) is None,
    decreases count,
{
    let front = empty_stripes(count).drop_last();
    if count > 1 {
        lemma_empty_stripes((count - 1) as nat);
        assert(front =~= empty_stripes((count - 1) as nat));
    } else {
        assert(front.len() == 0);
        assert(total(front) == 0);
        assert(account_count(front) == 0);
    }
    assert(empty_stripes(count).last().len() == 0);
    assert(entries_sum(empty_stripes(count).last()) == 0);
}

} // verus!
