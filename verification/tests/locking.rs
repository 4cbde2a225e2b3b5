use striped_ledger::transfer::{lock_plan, LockPlan};
use striped_ledger::Accounts;

#[test]
fn self_transfer_locks_nothing() {
    assert_eq!(lock_plan(3, 3, 4), LockPlan::Nothing);
    assert_eq!(lock_plan(0, 0, 1), LockPlan::Nothing);
}

#[test]
fn accounts_of_one_stripe_take_one_lock() {
    assert_eq!(lock_plan(1, 5, 4), LockPlan::One(1));
    assert_eq!(lock_plan(5, 1, 4), LockPlan::One(1));
    assert_eq!(lock_plan(7, 9, 1), LockPlan::One(0));
}

#[test]
fn lower_stripe_is_locked_first_in_both_directions() {
    assert_eq!(lock_plan(0, 5, 4), LockPlan::Two { first: 0, second: 1 });
    assert_eq!(lock_plan(5, 0, 4), LockPlan::Two { first: 0, second: 1 });
    assert_eq!(lock_plan(7, 2, 4), LockPlan::Two { first: 2, second: 3 });
    assert_eq!(lock_plan(2, 7, 4), LockPlan::Two { first: 2, second: 3 });
}

#[test]
fn every_pair_of_stripes_is_locked_in_ascending_order() {
    for count in 1..9usize {
        for from in 0..24usize {
            for to in 0..24usize {
                match lock_plan(from, to, count) {
                    LockPlan::Nothing => assert_eq!(from, to),
                    LockPlan::One(stripe) => {
                        assert_ne!(from, to);
                        assert_eq!(stripe, from % count);
                        assert_eq!(stripe, to % count);
                    }
                    LockPlan::Two { first, second } => {
                        assert!(first < second);
                        assert_eq!(first, (from % count).min(to % count));
                        assert_eq!(second, (from % count).max(to % count));
                    }
                }
            }
        }
    }
}

#[test]
fn every_pair_of_stripes_can_be_transferred_between() {
    let accounts = Accounts::populated(5, 10, 100);
    for from in 0..10usize {
        for to in 0..10usize {
            assert_eq!(accounts.transfer(from, to, 1), Ok(()));
            assert_eq!(accounts.sum_up_all_accounts(), 1000);
        }
    }
    for id in 0..10usize {
        assert_eq!(accounts.balance(id), Some(100));
    }
}
