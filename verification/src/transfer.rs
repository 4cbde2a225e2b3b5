//! The arithmetic and the stripe-level steps of a transfer, shared by both
//! ledgers.

use crate::bounds::lemma_partial_total_fits;
use crate::bucket::{after_update, lemma_after_update, lookup, Bucket};
use crate::stripe::{
    entries_sum, fits, keys_of, lemma_stripe_after_update, moved, settled, stripe_of, stripe_wf,
    stripes_wf, total, verdict, AccountError, Entries, Stripes,
};
use vstd::prelude::*;

verus! {

/// Debits `amount` from one balance and credits it to the other, or reports
/// that one of the two results cannot be held.
pub fn settle(from_balance: i64, to_balance: i64, amount: i64) -> (outcome: Result<
    (i64, i64),
    AccountError,
>)
    ensures
        outcome == settled(from_balance, to_balance, amount),
{
    match (from_balance.checked_sub(amount), to_balance.checked_add(amount)) {
        (Some(debited), Some(credited)) => Ok((debited, credited)),
        _ => Err(AccountError::Overflow),
    }
}

/// The stripes that a transfer locks, in the order in which it locks them.
#[derive(Debug, Clone, Copy, PartialEq, Eq)]
pub enum LockPlan {
    /// A transfer from an account to itself locks nothing.
    Nothing,
    /// Both accounts live in this stripe.
    One(usize),
    /// The accounts live in two stripes: `first` is the lower of the two and
    /// is locked first, whichever of the accounts it holds.
    Two { first: usize, second: usize },
}

/// The locks that a transfer from `from` to `to` takes in a ledger of
/// `count` stripes.
pub open spec fn planned(from: usize, to: usize, count: usize) -> LockPlan {
    let from_stripe = (from % count) as usize;
    let to_stripe = (to % count) as usize;
    if from == to {
        LockPlan::Nothing
    } else if from_stripe == to_stripe {
        LockPlan::One(from_stripe)
    } else if from_stripe < to_stripe {
        LockPlan::Two { first: from_stripe, second: to_stripe }
    } else {
        LockPlan::Two { first: to_stripe, second: from_stripe }
    }
}

/// Decides which stripes a transfer locks, and in which order: the lower
/// stripe always comes first.
pub fn lock_plan(from: usize, to: usize, count: usize) -> (plan: LockPlan)
    requires
        count > 0,
    ensures
        plan == planned(from, to, count),
        plan matches LockPlan::Two { first, second } ==> first < second < count,
        plan matches LockPlan::One(stripe) ==> stripe < count,
{
    if to == from {
        return LockPlan::Nothing;
    }
    let from_stripe: usize = from % count;
    let to_stripe: usize = to % count;
    if from_stripe == to_stripe {
        LockPlan::One(from_stripe)
    } else if from_stripe < to_stripe {
        LockPlan::Two { first: from_stripe, second: to_stripe }
    } else {
        LockPlan::Two { first: to_stripe, second: from_stripe }
    }
}

/// `after` holds the keys of `before`, each where it stood.
pub open spec fn same_keys(before: Entries, after: Entries) -> bool {
    &&& after.len() == before.len()
    &&& forall|i: int| 0 <= i < before.len() ==> (#[trigger] after[i]).0 == before[i].0
}

/// A stripe whose keys stay where they are stays a stripe of its index,
/// with the ids that it had.
pub proof fn lemma_same_keys_keep_stripe(before: Entries, after: Entries, index: int, count: nat)
    requires
        stripe_wf(before, index, count),
        same_keys(before, after),
    ensures
        stripe_wf(after, index, count),
        keys_of(after) == keys_of(before),
{
    assert(keys_of(after) =~= keys_of(before));
    assert forall|i: int, j: int| 0 <= i < j < after.len() implies after[i].0 < after[j].0 by {
        assert(before[i].0 < before[j].0);
    }
    assert forall|i: int| 0 <= i < after.len() implies stripe_of(#[trigger] after[i].0, count)
        == index by {
        assert(after[i].0 == before[i].0);
    }
}

/// The balance under `id` in `bucket`, if the account is there.
pub fn balance_in(bucket: &Bucket<i64>, id: usize) -> (balance: Option<i64>)
    requires
        bucket.wf(),
    ensures
        balance == lookup(bucket@, id),
{
    match bucket.get(id) {
        Some(entry) => Some(entry.1),
        None => None,
    }
}

/// Moves `amount` between two different accounts of one stripe. Both must be
/// there and both new balances must be representable, else nothing changes.
/// The sum of the stripe is kept either way.
pub fn transfer_within(bucket: &mut Bucket<i64>, from: usize, to: usize, amount: i64) -> (outcome:
    Result<(), AccountError>)
    requires
        old(bucket).wf(),
        from != to,
    ensures
        final(bucket).wf(),
        same_keys(old(bucket)@, final(bucket)@),
        outcome == verdict(moved(lookup(old(bucket)@, from), lookup(old(bucket)@, to), amount)),
        final(bucket)@ == match moved(
            lookup(old(bucket)@, from),
            lookup(old(bucket)@, to),
            amount,
        ) {
            Ok((debited, credited)) => after_update(
                after_update(old(bucket)@, from, debited),
                to,
                credited,
            ),
            Err(_) => old(bucket)@,
        },
        outcome is Err ==> final(bucket)@ == old(bucket)@,
        outcome is Ok ==> {
            &&& lookup(old(bucket)@, from) is Some
            &&& lookup(old(bucket)@, to) is Some
            &&& lookup(final(bucket)@, from) == Some(
                (lookup(old(bucket)@, from).unwrap() - amount) as i64,
            )
            &&& lookup(final(bucket)@, to) == Some(
                (lookup(old(bucket)@, to).unwrap() + amount) as i64,
            )
            &&& fits(lookup(old(bucket)@, from).unwrap() - amount)
            &&& fits(lookup(old(bucket)@, to).unwrap() + amount)
        },
        forall|other: usize|
            other != from && other != to ==> lookup(final(bucket)@, other) == lookup(
                old(bucket)@,
                other,
            ),
        entries_sum(final(bucket)@) == entries_sum(old(bucket)@),
{
    let from_balance: i64 = match balance_in(bucket, from) {
        Some(balance) => balance,
        None => { return Err(AccountError::DoesNotExist); },
    };
    let to_balance: i64 = match balance_in(bucket, to) {
        Some(balance) => balance,
        None => { return Err(AccountError::DoesNotExist); },
    };
    match settle(from_balance, to_balance, amount) {
        Ok((debited, credited)) => {
            proof {
                let debit_done = after_update(old(bucket)@, from, debited);
                lemma_after_update(old(bucket)@, from, debited);
                lemma_after_update(debit_done, to, credited);
                lemma_stripe_after_update(old(bucket)@, from, debited, 0, 1);
                lemma_stripe_after_update(debit_done, to, credited, 0, 1);
            }
            let debit_done: bool = bucket.update(from, debited);
            let credit_done: bool = bucket.update(to, credited);
            assert(debit_done && credit_done);
            Ok(())
        },
        Err(error) => Err(error),
    }
}

/// Moves `amount` from an account of one stripe to an account of another.
/// Both must be there and both new balances must be representable, else
/// nothing changes. What the one stripe loses the other gains: the sum of
/// the two is kept either way.
pub fn transfer_across(
    source: &mut Bucket<i64>,
    target: &mut Bucket<i64>,
    from: usize,
    to: usize,
    amount: i64,
) -> (outcome: Result<(), AccountError>)
    requires
        old(source).wf(),
        old(target).wf(),
    ensures
        final(source).wf(),
        final(target).wf(),
        same_keys(old(source)@, final(source)@),
        same_keys(old(target)@, final(target)@),
        outcome == verdict(moved(lookup(old(source)@, from), lookup(old(target)@, to), amount)),
        final(source)@ == match moved(
            lookup(old(source)@, from),
            lookup(old(target)@, to),
            amount,
        ) {
            Ok((debited, _)) => after_update(old(source)@, from, debited),
            Err(_) => old(source)@,
        },
        final(target)@ == match moved(
            lookup(old(source)@, from),
            lookup(old(target)@, to),
            amount,
        ) {
            Ok((_, credited)) => after_update(old(target)@, to, credited),
            Err(_) => old(target)@,
        },
        outcome is Err ==> final(source)@ == old(source)@ && final(target)@ == old(target)@,
        outcome is Ok ==> {
            &&& lookup(old(source)@, from) is Some
            &&& lookup(old(target)@, to) is Some
            &&& lookup(final(source)@, from) == Some(
                (lookup(old(source)@, from).unwrap() - amount) as i64,
            )
            &&& lookup(final(target)@, to) == Some(
                (lookup(old(target)@, to).unwrap() + amount) as i64,
            )
            &&& fits(lookup(old(source)@, from).unwrap() - amount)
            &&& fits(lookup(old(target)@, to).unwrap() + amount)
        },
        forall|other: usize|
            other != from ==> lookup(final(source)@, other) == lookup(old(source)@, other),
        forall|other: usize|
            other != to ==> lookup(final(target)@, other) == lookup(old(target)@, other),
        entries_sum(final(source)@) + entries_sum(final(target)@) == entries_sum(old(source)@)
            + entries_sum(old(target)@),
{
    let from_balance: i64 = match balance_in(source, from) {
        Some(balance) => balance,
        None => { return Err(AccountError::DoesNotExist); },
    };
    let to_balance: i64 = match balance_in(target, to) {
        Some(balance) => balance,
        None => { return Err(AccountError::DoesNotExist); },
    };
    match settle(from_balance, to_balance, amount) {
        Ok((debited, credited)) => {
            proof {
                lemma_after_update(old(source)@, from, debited);
                lemma_after_update(old(target)@, to, credited);
                lemma_stripe_after_update(old(source)@, from, debited, 0, 1);
                lemma_stripe_after_update(old(target)@, to, credited, 0, 1);
            }
            let debit_done: bool = source.update(from, debited);
            let credit_done: bool = target.update(to, credited);
            assert(debit_done && credit_done);
            Ok(())
        },
        Err(error) => Err(error),
    }
}

/// Adds the balances of stripe `index` to the total of the stripes before
/// it.
pub(crate) fn add_stripe(
    sum: i128,
    bucket: &Bucket<i64>,
    Ghost(stripes): Ghost<Stripes>,
    Ghost(index): Ghost<int>,
) -> (grown: i128)
    requires
        stripes_wf(stripes),
        0 <= index < stripes.len(),
        bucket@ == stripes[index],
        sum == total(stripes.take(index)),
    ensures
        grown == total(stripes.take(index + 1)),
{
    let entries = bucket.as_slice();
    let mut grown: i128 = sum;
    let mut done: usize = 0;
    while done < entries.len()
        invariant
            stripes_wf(stripes),
            0 <= index < stripes.len(),
            entries@ == stripes[index],
            done <= entries@.len(),
            grown == total(stripes.take(index)) + entries_sum(entries@.take(done as int)),
        decreases entries@.len() - done,
    {
        proof {
            lemma_partial_total_fits(stripes, index, done + 1);
            assert(entries@.take(done + 1).drop_last() =~= entries@.take(done as int));
        }
        grown = grown + entries[done].1 as i128;
        done = done + 1;
    }
    proof {
        assert(entries@.take(done as int) =~= entries@);
        assert(stripes.take(index + 1).drop_last() =~= stripes.take(index));
    }
    grown
}

} // verus!
