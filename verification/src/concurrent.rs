//! The ledger for many threads: every stripe sits behind a lock of its own.
//!
//! A thread that needs several stripes locks them in ascending order of
//! their indices, whatever the operation. With one order for all, no cycle
//! of threads that wait for each other can form.
//!
//! Which accounts there are is settled while the ledger has one owner:
//! `add_account` takes the ledger exclusively. Threads that share the ledger
//! change balances only. So the contracts can say which accounts a shared
//! ledger has, and every lock guards a stripe with exactly the ids that the
//! ledger names for it; what the balances are at a given moment depends on
//! what the other threads have done, and no contract speaks of that.

use crate::bounds::lemma_total_bounds;
use crate::bucket::{after_insert, lemma_after_insert, lookup, Bucket};
use crate::sequential::AccountsSeq;
use crate::stripe::{
    account_count, balance_of, count_keys, keys_of, lemma_count_keys, lemma_count_keys_empty,
    lemma_count_keys_update, lemma_keys_of, lemma_stripe_after_insert, settled, stripe_of,
    stripe_wf, stripes_wf, total, verdict, AccountError, Stripes,
};
use crate::transfer::{
    add_stripe, balance_in, lemma_same_keys_keep_stripe, lock_plan, transfer_across,
    transfer_within, LockPlan,
};
use vstd::prelude::*;
use vstd::rwlock::{ReadHandle, RwLock, RwLockPredicate, WriteHandle};

verus! {

/// What the lock of stripe `index` of `count` guards: a bucket that is
/// sorted, holds only ids of that stripe, and holds exactly the ids `keys`.
pub struct StripeInv {
    pub index: int,
    pub count: nat,
    pub keys: Seq<usize>,
}

impl RwLockPredicate<Bucket<i64>> for StripeInv {
    open spec fn inv(self, bucket: Bucket<i64>) -> bool {
        &&& stripe_wf(bucket@, self.index, self.count)
        &&& keys_of(bucket@) == self.keys
    }
}

/// The stripes that one operation has locked so far. Every lock that an
/// operation takes goes through this record, which lets a stripe be locked
/// only if it lies above all that the operation has locked before: within
/// an operation, locks are taken in strictly ascending order.
struct LockOrder {
    highest: Ghost<int>,
}

impl LockOrder {
    /// The highest stripe locked so far; `-1` where none was.
    closed spec fn top(&self) -> int {
        self.highest@
    }

    /// The record of an operation that has locked nothing yet.
    fn start() -> (order: Self)
        ensures
            order.top() == -1,
    {
        LockOrder { highest: Ghost(-1) }
    }

    /// Locks stripe `stripe` of `accounts` for writing.
    fn write<'a>(&mut self, accounts: &'a Accounts, stripe: usize) -> (locked: (
        Bucket<i64>,
        WriteHandle<'a, Bucket<i64>, StripeInv>,
    ))
        requires
            accounts.wf(),
            old(self).top() < stripe < accounts.stripes(),
        ensures
            final(self).top() == stripe,
            stripe_wf(locked.0@, stripe as int, accounts.stripes()),
            keys_of(locked.0@) == accounts.keys()[stripe as int],
            locked.1.rwlock().pred() == (StripeInv {
                index: stripe as int,
                count: accounts.stripes(),
                keys: accounts.keys()[stripe as int],
            }),
    {
        self.highest = Ghost(stripe as int);
        accounts.buckets[stripe].acquire_write()
    }

    /// Locks stripe `stripe` of `accounts` for reading.
    fn read<'a>(&mut self, accounts: &'a Accounts, stripe: usize) -> (locked: ReadHandle<
        'a,
        Bucket<i64>,
        StripeInv,
    >)
        requires
            accounts.wf(),
            old(self).top() < stripe < accounts.stripes(),
        ensures
            final(self).top() == stripe,
            stripe_wf(locked.view()@, stripe as int, accounts.stripes()),
            keys_of(locked.view()@) == accounts.keys()[stripe as int],
    {
        self.highest = Ghost(stripe as int);
        accounts.buckets[stripe].acquire_read()
    }
}

/// A striped ledger that threads share.
pub struct Accounts {
    buckets: Vec<RwLock<Bucket<i64>, StripeInv>>,
}

impl Accounts {
    /// The ids of the accounts of each stripe, in ascending order.
    pub closed spec fn keys(&self) -> Seq<Seq<usize>> {
        Seq::new(self.buckets@.len(), |s: int| self.buckets@[s].pred().keys)
    }

    /// The number of stripes.
    pub open spec fn stripes(&self) -> nat {
        self.keys().len()
    }

    /// The number of accounts.
    pub open spec fn accounts(&self) -> int {
        count_keys(self.keys())
    }

    /// The ledger has an account `id`.
    pub open spec fn has_account(&self, id: usize) -> bool {
        self.keys()[stripe_of(id, self.stripes())].contains(id)
    }

    /// `snapshot` is a state that the ledger can be in: it is well formed
    /// and each of its stripes holds exactly the ledger's accounts of that
    /// stripe, with whatever balances.
    pub open spec fn holds(&self, snapshot: Stripes) -> bool {
        &&& stripes_wf(snapshot)
        &&& snapshot.len() == self.stripes()
        &&& forall|s: int|
            0 <= s < snapshot.len() ==> keys_of(#[trigger] snapshot[s]) == self.keys()[s]
    }

    /// The ledger's invariant: there is a stripe, and the lock at each index
    /// guards the stripe of that index.
    pub closed spec fn wf(&self) -> bool {
        &&& self.buckets@.len() > 0
        &&& forall|s: int|
            0 <= s < self.buckets@.len() ==> {
                &&& (#[trigger] self.buckets@[s]).pred().index == s
                &&& self.buckets@[s].pred().count == self.buckets@.len()
            }
    }

    /// A ledger of `buckets` stripes without accounts.
    pub fn new(buckets: usize) -> (accounts: Self)
        requires
            buckets > 0,
        ensures
            accounts.wf(),
            accounts.stripes() == buckets,
            forall|id: usize| !accounts.has_account(id),
            accounts.accounts() == 0,
    {
        let mut locks: Vec<RwLock<Bucket<i64>, StripeInv>> = Vec::new();
        while locks.len() < buckets
            invariant
                locks@.len() <= buckets,
                forall|s: int|
                    0 <= s < locks@.len() ==> (#[trigger] locks@[s]).pred() == (StripeInv {
                        index: s,
                        count: buckets as nat,
                        keys: Seq::empty(),
                    }),
            decreases buckets - locks@.len(),
        {
            let ghost guarded = StripeInv {
                index: locks@.len() as int,
                count: buckets as nat,
                keys: Seq::empty(),
            };
            let bucket: Bucket<i64> = Bucket::new();
            assert(keys_of(bucket@) =~= Seq::<usize>::empty());
            locks.push(RwLock::new(bucket, Ghost(guarded)));
        }
        let accounts = Self { buckets: locks };
        assert forall|id: usize| !accounts.has_account(id) by {
            let s = stripe_of(id, accounts.stripes());
            assert(accounts.keys()[s] == accounts.buckets@[s].pred().keys);
        }
        proof {
            lemma_count_keys_empty(accounts.keys());
        }
        accounts
    }

    /// The ledger that `ledger` was, for many threads: every stripe goes
    /// behind a lock of its own with the accounts that it holds.
    pub fn from_sequential(ledger: AccountsSeq) -> (accounts: Self)
        requires
            ledger.wf(),
        ensures
            accounts.wf(),
            accounts.stripes() == ledger@.len(),
            accounts.holds(ledger@),
            accounts.accounts() == account_count(ledger@),
            forall|id: usize| accounts.has_account(id) <==> balance_of(ledger@, id) is Some,
    {
        let ghost stripes = ledger@;
        let mut buckets = ledger.into_buckets();
        let count: usize = buckets.len();
        let mut locks: Vec<RwLock<Bucket<i64>, StripeInv>> = Vec::new();
        while locks.len() < count
            invariant
                stripes_wf(stripes),
                count == stripes.len(),
                buckets@.len() == count,
                locks@.len() <= count,
                forall|s: int|
                    locks@.len() <= s < count ==> (#[trigger] buckets@[s])@ == stripes[s],
                forall|s: int|
                    0 <= s < locks@.len() ==> (#[trigger] locks@[s]).pred() == (StripeInv {
                        index: s,
                        count: count as nat,
                        keys: keys_of(stripes[s]),
                    }),
            decreases count - locks@.len(),
        {
            let stripe: usize = locks.len();
            let ghost guarded = StripeInv {
                index: stripe as int,
                count: count as nat,
                keys: keys_of(stripes[stripe as int]),
            };
            let mut bucket: Bucket<i64> = Bucket::new();
            core::mem::swap(&mut buckets[stripe], &mut bucket);
            locks.push(RwLock::new(bucket, Ghost(guarded)));
        }
        let accounts = Self { buckets: locks };
        proof {
            assert forall|s: int| 0 <= s < stripes.len() implies keys_of(#[trigger] stripes[s])
                == accounts.keys()[s] by {
                assert(accounts.keys()[s] == accounts.buckets@[s].pred().keys);
            }
            lemma_count_keys(stripes, accounts.keys());
            assert forall|id: usize| accounts.has_account(id) <==> balance_of(
                stripes,
                id,
            ) is Some by {
                let s = stripe_of(id, stripes.len());
                assert(accounts.keys()[s] == keys_of(stripes[s]));
                lemma_keys_of(stripes[s], id);
            }
        }
        accounts
    }

    /// A ledger of `stripe_count` stripes with the accounts `0` to
    /// `account_count - 1`, each with `balance`.
    pub fn populated(stripe_count: usize, account_count: usize, balance: i64) -> (accounts: Self)
        requires
            stripe_count > 0,
        ensures
            accounts.wf(),
            accounts.stripes() == stripe_count,
            accounts.accounts() == account_count,
            forall|id: usize| accounts.has_account(id) <==> id < account_count,
    {
        Self::from_sequential(AccountsSeq::populated(stripe_count, account_count, balance))
    }

    /// The balance of account `id` at some moment of the call: `Some`
    /// exactly if the ledger has the account. Which balance it is depends on
    /// the transfers that other threads have made by then.
    pub fn balance(&self, id: usize) -> (balance: Option<i64>)
        requires
            self.wf(),
        ensures
            balance is Some <==> self.has_account(id),
    {
        let stripe: usize = id % self.buckets.len();
        let mut order = LockOrder::start();
        let guard = order.read(self, stripe);
        proof {
            lemma_keys_of(guard.view()@, id);
        }
        let balance = balance_in(guard.borrow(), id);
        guard.release_read();
        balance
    }

    /// The number of stripes.
    pub fn stripe_count(&self) -> (count: usize)
        ensures
            count == self.stripes(),
            self.wf() ==> count > 0,
    {
        self.buckets.len()
    }

    /// Moves `amount` from account `from` to account `to`, as one step with
    /// respect to each of the two stripes.
    ///
    /// A transfer from an account to itself succeeds and touches no lock.
    /// Otherwise the stripes that `lock_plan` names are locked for writing,
    /// the lower first, and the outcome is that of `transfer_within` or
    /// `transfer_across` on the stripes as they are while the locks are
    /// held: `DoesNotExist` exactly if the ledger lacks one of the two
    /// accounts, else `Overflow` or success, as the two balances of that
    /// moment allow.
    pub fn transfer(&self, from: usize, to: usize, amount: i64) -> (outcome: Result<
        (),
        AccountError,
    >)
        requires
            self.wf(),
        ensures
            from == to ==> outcome is Ok,
            outcome == Err::<(), AccountError>(AccountError::DoesNotExist) <==> from != to && !(
            self.has_account(from) && self.has_account(to)),
            from != to && self.has_account(from) && self.has_account(to) ==> outcome is Ok
                || outcome == Err::<(), AccountError>(AccountError::Overflow),
            from != to && self.has_account(from) && self.has_account(to) ==> exists|
                from_balance: i64,
                to_balance: i64,
            |
                outcome == verdict(#[trigger] settled(from_balance, to_balance, amount)),
    {
        let count: usize = self.buckets.len();
        let mut order = LockOrder::start();
        match lock_plan(from, to, count) {
            LockPlan::Nothing => Ok(()),
            LockPlan::One(stripe) => {
                let (mut bucket, handle) = order.write(self, stripe);
                let ghost before = bucket@;
                proof {
                    lemma_keys_of(before, from);
                    lemma_keys_of(before, to);
                }
                let outcome = transfer_within(&mut bucket, from, to, amount);
                proof {
                    lemma_same_keys_keep_stripe(before, bucket@, stripe as int, count as nat);
                    if self.has_account(from) && self.has_account(to) {
                        assert(outcome == verdict(
                            settled(
                                lookup(before, from).unwrap(),
                                lookup(before, to).unwrap(),
                                amount,
                            ),
                        ));
                    }
                }
                handle.release_write(bucket);
                outcome
            },
            LockPlan::Two { first, second } => {
                let (mut lower, lower_handle) = order.write(self, first);
                let (mut upper, upper_handle) = order.write(self, second);
                let ghost lower_before = lower@;
                let ghost upper_before = upper@;
                proof {
                    lemma_keys_of(lower_before, from);
                    lemma_keys_of(lower_before, to);
                    lemma_keys_of(upper_before, from);
                    lemma_keys_of(upper_before, to);
                }
                let outcome = if from % count == first {
                    transfer_across(&mut lower, &mut upper, from, to, amount)
                } else {
                    transfer_across(&mut upper, &mut lower, from, to, amount)
                };
                proof {
                    if self.has_account(from) && self.has_account(to) {
                        let source = if from % count == first {
                            lower_before
                        } else {
                            upper_before
                        };
                        let target = if from % count == first {
                            upper_before
                        } else {
                            lower_before
                        };
                        assert(outcome == verdict(
                            settled(
                                lookup(source, from).unwrap(),
                                lookup(target, to).unwrap(),
                                amount,
                            ),
                        ));
                    }
                    lemma_same_keys_keep_stripe(lower_before, lower@, first as int, count as nat);
                    lemma_same_keys_keep_stripe(upper_before, upper@, second as int, count as nat);
                }
                upper_handle.release_write(upper);
                lower_handle.release_write(lower);
                outcome
            },
        }
    }

    /// The sum of all balances, taken while every stripe is locked for
    /// reading: the total of a state that the ledger can be in. The locks
    /// are taken in ascending order and released together, after the last
    /// balance has been read.
    pub fn sum_up_all_accounts(&self) -> (sum: i128)
        requires
            self.wf(),
        ensures
            exists|snapshot: Stripes| #[trigger] self.holds(snapshot) && sum == total(snapshot),
            i64::MIN * self.accounts() <= sum <= i64::MAX * self.accounts(),
    {
        let count: usize = self.buckets.len();
        let mut order = LockOrder::start();
        let mut guards: Vec<ReadHandle<'_, Bucket<i64>, StripeInv>> = Vec::new();
        while guards.len() < count
            invariant
                self.wf(),
                count == self.stripes(),
                guards@.len() <= count,
                order.top() == guards@.len() - 1,
                forall|s: int|
                    0 <= s < guards@.len() ==> stripe_wf(
                        (#[trigger] guards@[s]).view()@,
                        s,
                        count as nat,
                    ) && keys_of(guards@[s].view()@) == self.keys()[s],
            decreases count - guards@.len(),
        {
            let stripe: usize = guards.len();
            let guard = order.read(self, stripe);
            guards.push(guard);
        }
        let ghost snapshot: Stripes = Seq::new(count as nat, |s: int| guards@[s].view()@);
        assert(self.holds(snapshot));
        let mut sum: i128 = 0;
        let mut stripe: usize = 0;
        while stripe < count
            invariant
                stripes_wf(snapshot),
                stripe <= count,
                guards@.len() == count,
                snapshot.len() == count,
                forall|s: int| 0 <= s < count ==> snapshot[s] == (#[trigger] guards@[s]).view()@,
                sum == total(snapshot.take(stripe as int)),
            decreases count - stripe,
        {
            sum = add_stripe(sum, guards[stripe].borrow(), Ghost(snapshot), Ghost(stripe as int));
            stripe = stripe + 1;
        }
        proof {
            assert(snapshot.take(stripe as int) =~= snapshot);
            lemma_count_keys(snapshot, self.keys());
            lemma_total_bounds(snapshot);
        }
        while guards.len() > 0
            invariant
                self.holds(snapshot),
                sum == total(snapshot),
                i64::MIN * self.accounts() <= sum <= i64::MAX * self.accounts(),
            decreases guards@.len(),
        {
            match guards.pop() {
                Some(guard) => guard.release_read(),
                None => {},
            }
        }
        sum
    }

    /// Adds the account `id`, which must be new, with `balance`. The ledger
    /// is taken exclusively: accounts are added before threads share it. The
    /// stripe of `id` is taken out of its lock, which waits for the lock as a
    /// writer does, and goes behind a lock that guards the ids it then has.
    pub fn add_account(&mut self, id: usize, balance: i64)
        requires
            old(self).wf(),
            !old(self).has_account(id),
        ensures
            final(self).wf(),
            final(self).stripes() == old(self).stripes(),
            forall|other: usize|
                final(self).has_account(other) <==> old(self).has_account(other) || other == id,
            final(self).accounts() == old(self).accounts() + 1,
    {
        let count: usize = self.buckets.len();
        let stripe: usize = id % count;
        let ghost spare = StripeInv {
            index: stripe as int,
            count: count as nat,
            keys: Seq::empty(),
        };
        let empty: Bucket<i64> = Bucket::new();
        assert(keys_of(empty@) =~= Seq::<usize>::empty());
        let mut lock = RwLock::new(empty, Ghost(spare));
        core::mem::swap(&mut self.buckets[stripe], &mut lock);
        let mut bucket = lock.into_inner();
        let ghost before = bucket@;
        proof {
            assert(old(self).keys()[stripe as int] == keys_of(before));
            lemma_keys_of(before, id);
            lemma_stripe_after_insert(before, id, balance, stripe as int, count as nat);
        }
        let added: bool = bucket.insert(id, balance);
        assert(added);
        let ghost guarded = StripeInv {
            index: stripe as int,
            count: count as nat,
            keys: keys_of(bucket@),
        };
        let mut fresh = RwLock::new(bucket, Ghost(guarded));
        core::mem::swap(&mut self.buckets[stripe], &mut fresh);
        proof {
            assert(self.keys() =~= old(self).keys().update(stripe as int, keys_of(bucket@))) by {
                assert forall|s: int| 0 <= s < count implies #[trigger] self.keys()[s] == old(
                    self,
                ).keys().update(stripe as int, keys_of(bucket@))[s] by {
                    if s != stripe {
                        assert(self.buckets@[s] == old(self).buckets@[s]);
                    }
                }
            }
            lemma_count_keys_update(old(self).keys(), stripe as int, keys_of(bucket@));
            assert forall|other: usize| self.has_account(other) <==> old(self).has_account(other)
                || other == id by {
                let s = stripe_of(other, count as nat);
                assert(self.keys()[s] == self.buckets@[s].pred().keys);
                assert(old(self).keys()[s] == old(self).buckets@[s].pred().keys);
                if s == stripe {
                    lemma_after_insert(before, id, balance);
                    lemma_keys_of(before, other);
                    lemma_keys_of(after_insert(before, id, balance), other);
                } else {
                    assert(self.buckets@[s] == old(self).buckets@[s]);
                }
            }
        }
    }
}

} // verus!
