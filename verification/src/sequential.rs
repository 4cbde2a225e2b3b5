//! The single-threaded ledger.

use crate::bucket::Bucket;
use crate::laws::{lemma_transfer_conserves, lemma_transfer_moves};
use crate::stripe::{
    account_count, after_transfer, balance_of, empty_stripes, fits, lemma_empty_stripes,
    lemma_with_account, lemma_with_balance, stripes_wf, total, transfer_result, with_account,
    with_balance, AccountError, Stripes,
};
use crate::transfer::{add_stripe, balance_in, settle};
use vstd::prelude::*;

verus! {

/// A striped ledger for one thread: the stripes are owned directly.
pub struct AccountsSeq {
    buckets: Vec<Bucket<i64>>,
}

impl AccountsSeq {
    /// The stripes, each as its sorted entries.
    pub closed spec fn view(&self) -> Stripes {
        Seq::new(self.buckets@.len(), |s: int| self.buckets@[s]@)
    }

    /// The ledger's invariant.
    pub open spec fn wf(&self) -> bool {
        stripes_wf(self@)
    }

    /// A ledger of `buckets` stripes without accounts.
    pub fn new(buckets: usize) -> (accounts: Self)
        requires
            buckets > 0,
        ensures
            accounts.wf(),
            accounts@ == empty_stripes(buckets as nat),
            forall|id: usize| balance_of(accounts@, id) is None,
            total(accounts@) == 0,
            account_count(accounts@) == 0,
    {
        proof {
            lemma_empty_stripes(buckets as nat);
        }
        let mut stripes: Vec<Bucket<i64>> = Vec::new();
        while stripes.len() < buckets
            invariant
                stripes@.len() <= buckets,
                forall|s: int|
                    0 <= s < stripes@.len() ==> stripes@[s]@ == Seq::<(usize, i64)>::empty(),
            decreases buckets - stripes@.len(),
        {
            stripes.push(Bucket::new());
        }
        let accounts = Self { buckets: stripes };
        assert(accounts@ =~= empty_stripes(buckets as nat));
        accounts
    }

    /// The number of stripes.
    pub fn stripe_count(&self) -> (count: usize)
        ensures
            count == self@.len(),
    {
        self.buckets.len()
    }

    /// The balance of account `id`, if the account exists.
    pub fn balance(&self, id: usize) -> (balance: Option<i64>)
        requires
            self.wf(),
        ensures
            balance == balance_of(self@, id),
    {
        let stripe: usize = id % self.buckets.len();
        balance_in(&self.buckets[stripe], id)
    }

    /// Moves `amount` from account `from` to account `to`.
    ///
    /// A transfer from an account to itself succeeds and changes nothing.
    /// Otherwise both accounts must exist and both new balances must be
    /// representable; a refused transfer changes nothing. Balances may go
    /// negative.
    pub fn transfer(&mut self, from: usize, to: usize, amount: i64) -> (outcome: Result<
        (),
        AccountError,
    >)
        requires
            old(self).wf(),
        ensures
            final(self).wf(),
            outcome == transfer_result(old(self)@, from, to, amount),
            final(self)@ == after_transfer(old(self)@, from, to, amount),
            total(final(self)@) == total(old(self)@),
            outcome is Err ==> final(self)@ == old(self)@,
            outcome == Err::<(), AccountError>(AccountError::DoesNotExist) <==> from != to && (
            balance_of(old(self)@, from) is None || balance_of(old(self)@, to) is None),
            outcome == Err::<(), AccountError>(AccountError::Overflow) <==> {
                &&& from != to
                &&& balance_of(old(self)@, from) is Some
                &&& balance_of(old(self)@, to) is Some
                &&& !(fits(balance_of(old(self)@, from).unwrap() - amount) && fits(
                    balance_of(old(self)@, to).unwrap() + amount,
                ))
            },
            outcome is Ok && from != to ==> {
                &&& balance_of(old(self)@, from) is Some
                &&& balance_of(old(self)@, to) is Some
                &&& balance_of(final(self)@, from) == Some(
                    (balance_of(old(self)@, from).unwrap() - amount) as i64,
                )
                &&& balance_of(final(self)@, to) == Some(
                    (balance_of(old(self)@, to).unwrap() + amount) as i64,
                )
                &&& fits(balance_of(old(self)@, from).unwrap() - amount)
                &&& fits(balance_of(old(self)@, to).unwrap() + amount)
            },
            forall|other: usize|
                other != from && other != to ==> balance_of(final(self)@, other) == balance_of(
                    old(self)@,
                    other,
                ),
    {
        proof {
            lemma_transfer_conserves(self@, from, to, amount);
            if from != to && transfer_result(self@, from, to, amount) is Ok {
                lemma_transfer_moves(self@, from, to, amount);
            }
        }
        if to == from {
            return Ok(());
        }
        let from_stripe: usize = from % self.buckets.len();
        let to_stripe: usize = to % self.buckets.len();
        let from_balance: i64 = match balance_in(&self.buckets[from_stripe], from) {
            Some(balance) => balance,
            None => { return Err(AccountError::DoesNotExist); },
        };
        let to_balance: i64 = match balance_in(&self.buckets[to_stripe], to) {
            Some(balance) => balance,
            None => { return Err(AccountError::DoesNotExist); },
        };
        match settle(from_balance, to_balance, amount) {
            Ok((debited, credited)) => {
                let debit_done: bool = self.buckets[from_stripe].update(from, debited);
                let ghost debited_state = self@;
                proof {
                    assert(debited_state =~= with_balance(old(self)@, from, debited));
                    lemma_with_balance(old(self)@, from, debited);
                }
                let credit_done: bool = self.buckets[to_stripe].update(to, credited);
                proof {
                    assert(debit_done && credit_done);
                    assert(self@ =~= with_balance(debited_state, to, credited));
                    lemma_with_balance(debited_state, to, credited);
                }
                Ok(())
            },
            Err(error) => Err(error),
        }
    }

    /// The sum of all balances.
    pub fn sum_up_all_accounts(&self) -> (sum: i128)
        requires
            self.wf(),
        ensures
            sum == total(self@),
    {
        let mut sum: i128 = 0;
        let mut stripe: usize = 0;
        while stripe < self.buckets.len()
            invariant
                self.wf(),
                stripe <= self@.len(),
                self@.len() == self.buckets@.len(),
                sum == total(self@.take(stripe as int)),
            decreases self@.len() - stripe,
        {
            sum = add_stripe(sum, &self.buckets[stripe], Ghost(self@), Ghost(stripe as int));
            stripe = stripe + 1;
        }
        proof {
            assert(self@.take(stripe as int) =~= self@);
        }
        sum
    }

    /// Adds the account `id`, which must be new, with `balance`.
    pub fn add_account(&mut self, id: usize, balance: i64)
        requires
            old(self).wf(),
            balance_of(old(self)@, id) is None,
        ensures
            final(self).wf(),
            final(self)@ == with_account(old(self)@, id, balance),
            final(self)@.len() == old(self)@.len(),
            balance_of(final(self)@, id) == Some(balance),
            forall|other: usize|
                other != id ==> balance_of(final(self)@, other) == balance_of(old(self)@, other),
            total(final(self)@) == total(old(self)@) + balance,
            account_count(final(self)@) == account_count(old(self)@) + 1,
    {
        let stripe: usize = id % self.buckets.len();
        let inserted: bool = self.buckets[stripe].insert(id, balance);
        proof {
            assert(self@ =~= with_account(old(self)@, id, balance));
            lemma_with_account(old(self)@, id, balance);
        }
    }

    /// A ledger of `stripe_count` stripes with the accounts `0` to
    /// `account_count - 1`, each with `balance`.
    pub fn populated(stripe_count: usize, account_count: usize, balance: i64) -> (accounts: Self)
        requires
            stripe_count > 0,
        ensures
            accounts.wf(),
            accounts@.len() == stripe_count,
            forall|id: usize|
                balance_of(accounts@, id) == if id < account_count {
                    Some(balance)
                } else {
                    None
                },
            total(accounts@) == account_count * balance,
            crate::stripe::account_count(accounts@) == account_count,
    {
        let mut accounts = Self::new(stripe_count);
        let mut id: usize = 0;
        while id < account_count
            invariant
                accounts.wf(),
                accounts@.len() == stripe_count,
                id <= account_count,
                forall|known: usize|
                    balance_of(accounts@, known) == if known < id {
                        Some(balance)
                    } else {
                        None
                    },
                total(accounts@) == id * balance,
                crate::stripe::account_count(accounts@) == id,
            decreases account_count - id,
        {
            accounts.add_account(id, balance);
            proof {
                assert((id + 1) * balance == id * balance + balance) by (nonlinear_arith);
            }
            id = id + 1;
        }
        accounts
    }

    /// Gives up the ledger for its stripes, in order.
    pub fn into_buckets(self) -> (buckets: Vec<Bucket<i64>>)
        ensures
            buckets@.len() == self@.len(),
            forall|s: int| 0 <= s < buckets@.len() ==> (#[trigger] buckets@[s])@ == self@[s],
    {
        self.buckets
    }
}

} // verus!
