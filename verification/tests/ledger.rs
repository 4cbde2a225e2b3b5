use striped_ledger::concurrent::Accounts;
use striped_ledger::sequential::AccountsSeq;
use striped_ledger::stripe::AccountError;
use striped_ledger::transfer::{balance_in, settle, transfer_across, transfer_within};
use striped_ledger::bucket::Bucket;

fn seeded(stripes: usize) -> AccountsSeq {
    let mut accounts = AccountsSeq::new(stripes);
    for id in 0..8 {
        accounts.add_account(id, 100);
    }
    accounts
}

fn balances(accounts: &AccountsSeq, ids: usize) -> Vec<Option<i64>> {
    (0..ids).map(|id| accounts.balance(id)).collect()
}

#[test]
fn transfers_across_stripes_and_back() {
    let mut accounts = seeded(4);
    assert_eq!(accounts.transfer(0, 5, 30), Ok(()));
    assert_eq!(accounts.transfer(5, 0, 10), Ok(()));
    assert_eq!(accounts.balance(0), Some(80));
    assert_eq!(accounts.balance(5), Some(120));
    assert_eq!(accounts.sum_up_all_accounts(), 800);
}

#[test]
fn shared_ledger_transfers_across_stripes_and_back() {
    let mut accounts = Accounts::new(4);
    for id in 0..8 {
        accounts.add_account(id, 100);
    }
    assert_eq!(accounts.transfer(0, 5, 30), Ok(()));
    assert_eq!(accounts.transfer(5, 0, 10), Ok(()));
    assert_eq!(accounts.balance(0), Some(80));
    assert_eq!(accounts.balance(5), Some(120));
    assert_eq!(accounts.sum_up_all_accounts(), 800);
}

#[test]
fn new_ledger_has_no_accounts() {
    let accounts = AccountsSeq::new(3);
    assert_eq!(accounts.stripe_count(), 3);
    assert_eq!(accounts.sum_up_all_accounts(), 0);
    assert_eq!(balances(&accounts, 6), vec![None; 6]);
    let shared = Accounts::new(3);
    assert_eq!(shared.stripe_count(), 3);
    assert_eq!(shared.sum_up_all_accounts(), 0);
    assert_eq!(shared.balance(0), None);
}

#[test]
fn transfer_within_one_stripe() {
    let mut accounts = seeded(4);
    assert_eq!(accounts.transfer(1, 5, 25), Ok(()));
    assert_eq!(accounts.balance(1), Some(75));
    assert_eq!(accounts.balance(5), Some(125));
    assert_eq!(accounts.sum_up_all_accounts(), 800);
    let shared = Accounts::populated(4, 8, 100);
    assert_eq!(shared.transfer(1, 5, 25), Ok(()));
    assert_eq!(shared.balance(1), Some(75));
    assert_eq!(shared.balance(5), Some(125));
}

#[test]
fn transfer_from_higher_to_lower_stripe() {
    let shared = Accounts::populated(4, 8, 100);
    assert_eq!(shared.transfer(7, 2, 40), Ok(()));
    assert_eq!(shared.balance(7), Some(60));
    assert_eq!(shared.balance(2), Some(140));
    let mut accounts = seeded(4);
    assert_eq!(accounts.transfer(7, 2, 40), Ok(()));
    assert_eq!(accounts.balance(7), Some(60));
    assert_eq!(accounts.balance(2), Some(140));
}

#[test]
fn self_transfer_succeeds_and_changes_nothing() {
    let mut accounts = seeded(4);
    assert_eq!(accounts.transfer(3, 3, 1_000_000), Ok(()));
    assert_eq!(accounts.balance(3), Some(100));
    assert_eq!(accounts.transfer(42, 42, 5), Ok(()));
    assert_eq!(accounts.balance(42), None);
    assert_eq!(accounts.sum_up_all_accounts(), 800);
    let shared = Accounts::populated(4, 8, 100);
    assert_eq!(shared.transfer(3, 3, i64::MAX), Ok(()));
    assert_eq!(shared.transfer(42, 42, 5), Ok(()));
    assert_eq!(shared.balance(3), Some(100));
    assert_eq!(shared.sum_up_all_accounts(), 800);
}

#[test]
fn missing_account_is_refused_and_nothing_changes() {
    let mut accounts = seeded(4);
    let before = balances(&accounts, 12);
    assert_eq!(accounts.transfer(0, 8, 10), Err(AccountError::DoesNotExist));
    assert_eq!(accounts.transfer(9, 1, 10), Err(AccountError::DoesNotExist));
    assert_eq!(accounts.transfer(10, 11, 10), Err(AccountError::DoesNotExist));
    assert_eq!(accounts.transfer(4, 12, 10), Err(AccountError::DoesNotExist));
    assert_eq!(balances(&accounts, 12), before);
    assert_eq!(accounts.sum_up_all_accounts(), 800);
    let shared = Accounts::populated(4, 8, 100);
    assert_eq!(shared.transfer(0, 8, 10), Err(AccountError::DoesNotExist));
    assert_eq!(shared.transfer(9, 1, 10), Err(AccountError::DoesNotExist));
    assert_eq!(shared.transfer(4, 12, 10), Err(AccountError::DoesNotExist));
    assert_eq!(shared.balance(0), Some(100));
    assert_eq!(shared.balance(1), Some(100));
    assert_eq!(shared.balance(4), Some(100));
    assert_eq!(shared.sum_up_all_accounts(), 800);
}

#[test]
fn balances_may_go_negative() {
    let mut accounts = seeded(4);
    assert_eq!(accounts.transfer(0, 1, 250), Ok(()));
    assert_eq!(accounts.balance(0), Some(-150));
    assert_eq!(accounts.balance(1), Some(350));
    assert_eq!(accounts.transfer(2, 3, -40), Ok(()));
    assert_eq!(accounts.balance(2), Some(140));
    assert_eq!(accounts.balance(3), Some(60));
    assert_eq!(accounts.sum_up_all_accounts(), 800);
}

#[test]
fn unrepresentable_balance_is_refused_and_nothing_changes() {
    let mut accounts = AccountsSeq::new(2);
    accounts.add_account(0, i64::MAX - 5);
    accounts.add_account(1, i64::MIN + 5);
    accounts.add_account(2, 0);
    assert_eq!(accounts.transfer(2, 0, 6), Err(AccountError::Overflow));
    assert_eq!(accounts.transfer(1, 2, 6), Err(AccountError::Overflow));
    assert_eq!(accounts.transfer(0, 2, i64::MIN), Err(AccountError::Overflow));
    assert_eq!(accounts.balance(0), Some(i64::MAX - 5));
    assert_eq!(accounts.balance(1), Some(i64::MIN + 5));
    assert_eq!(accounts.balance(2), Some(0));
    assert_eq!(accounts.transfer(2, 0, 5), Ok(()));
    assert_eq!(accounts.balance(0), Some(i64::MAX));
    assert_eq!(accounts.balance(2), Some(-5));
    let shared = Accounts::from_sequential(accounts);
    assert_eq!(shared.transfer(2, 0, 1), Err(AccountError::Overflow));
    assert_eq!(shared.balance(0), Some(i64::MAX));
    assert_eq!(shared.balance(2), Some(-5));
}

#[test]
fn missing_account_is_reported_before_overflow() {
    let mut accounts = AccountsSeq::new(2);
    accounts.add_account(0, i64::MIN);
    assert_eq!(accounts.transfer(0, 1, 1), Err(AccountError::DoesNotExist));
    assert_eq!(accounts.balance(0), Some(i64::MIN));
}

#[test]
fn total_exceeds_the_range_of_one_balance() {
    let mut accounts = AccountsSeq::new(3);
    for id in 0..4 {
        accounts.add_account(id, i64::MAX);
    }
    assert_eq!(accounts.sum_up_all_accounts(), 4 * (i64::MAX as i128));
    let mut debts = AccountsSeq::new(3);
    for id in 0..4 {
        debts.add_account(id, i64::MIN);
    }
    assert_eq!(debts.sum_up_all_accounts(), 4 * (i64::MIN as i128));
    let shared = Accounts::from_sequential(debts);
    assert_eq!(shared.sum_up_all_accounts(), 4 * (i64::MIN as i128));
}

#[test]
fn total_is_conserved_over_many_transfers() {
    let mut accounts = AccountsSeq::populated(7, 50, 1000);
    let shared = Accounts::populated(7, 50, 1000);
    assert_eq!(accounts.sum_up_all_accounts(), 50_000);
    let mut step: usize = 1;
    for round in 0..2000i64 {
        step = (step * 37 + 5) % 1009;
        let from = step % 50;
        let to = (step / 7) % 50;
        let amount = round % 90 - 20;
        assert_eq!(accounts.transfer(from, to, amount), Ok(()));
        assert_eq!(shared.transfer(from, to, amount), Ok(()));
        if round % 250 == 0 {
            assert_eq!(accounts.sum_up_all_accounts(), 50_000);
            assert_eq!(shared.sum_up_all_accounts(), 50_000);
        }
    }
    assert_eq!(accounts.sum_up_all_accounts(), 50_000);
    assert_eq!(shared.sum_up_all_accounts(), 50_000);
    for id in 0..50 {
        assert_eq!(accounts.balance(id), shared.balance(id));
    }
}

#[test]
fn transfers_forth_and_back_leave_balances_unchanged() {
    let mut accounts = seeded(4);
    let shared = Accounts::populated(4, 8, 100);
    let before = balances(&accounts, 8);
    let order = [true, true, false, true, false, false, false, true, true, false];
    for round in 0..30 {
        for forth in order {
            let (from, to) = if forth { (2, 7) } else { (7, 2) };
            assert_eq!(accounts.transfer(from, to, 13 + round), Ok(()));
            assert_eq!(shared.transfer(from, to, 13 + round), Ok(()));
        }
        for forth in order {
            let (from, to) = if forth { (7, 2) } else { (2, 7) };
            assert_eq!(accounts.transfer(from, to, 13 + round), Ok(()));
            assert_eq!(shared.transfer(from, to, 13 + round), Ok(()));
        }
    }
    assert_eq!(balances(&accounts, 8), before);
    for id in 0..8 {
        assert_eq!(shared.balance(id), Some(100));
    }
}

#[test]
fn one_stripe_holds_every_account() {
    let mut accounts = AccountsSeq::new(1);
    for id in [5usize, 1, 9, 3] {
        accounts.add_account(id, id as i64);
    }
    assert_eq!(accounts.transfer(9, 1, 4), Ok(()));
    assert_eq!(accounts.balance(9), Some(5));
    assert_eq!(accounts.balance(1), Some(5));
    assert_eq!(accounts.sum_up_all_accounts(), 18);
}

#[test]
fn populated_ledger_has_the_accounts_asked_for() {
    let accounts = AccountsSeq::populated(4, 10, 250);
    assert_eq!(accounts.stripe_count(), 4);
    for id in 0..10 {
        assert_eq!(accounts.balance(id), Some(250));
    }
    assert_eq!(accounts.balance(10), None);
    assert_eq!(accounts.sum_up_all_accounts(), 2500);
    let none = AccountsSeq::populated(4, 0, 250);
    assert_eq!(none.sum_up_all_accounts(), 0);
    assert_eq!(none.balance(0), None);
}

#[test]
fn shared_ledger_keeps_what_the_sequential_one_held() {
    let mut accounts = AccountsSeq::new(3);
    accounts.add_account(4, 40);
    accounts.add_account(11, -11);
    accounts.add_account(0, 7);
    let shared = Accounts::from_sequential(accounts);
    assert_eq!(shared.stripe_count(), 3);
    assert_eq!(shared.balance(4), Some(40));
    assert_eq!(shared.balance(11), Some(-11));
    assert_eq!(shared.balance(0), Some(7));
    assert_eq!(shared.balance(1), None);
    assert_eq!(shared.sum_up_all_accounts(), 36);
}

#[test]
fn buckets_come_out_in_stripe_order() {
    let accounts = AccountsSeq::populated(3, 7, 5);
    let buckets = accounts.into_buckets();
    assert_eq!(buckets.len(), 3);
    assert_eq!(buckets[0].as_slice(), &[(0, 5), (3, 5), (6, 5)]);
    assert_eq!(buckets[1].as_slice(), &[(1, 5), (4, 5)]);
    assert_eq!(buckets[2].as_slice(), &[(2, 5), (5, 5)]);
}

#[test]
fn settle_debits_and_credits() {
    assert_eq!(settle(100, 100, 30), Ok((70, 130)));
    assert_eq!(settle(0, 0, -5), Ok((5, -5)));
    assert_eq!(settle(i64::MIN, 0, 1), Err(AccountError::Overflow));
    assert_eq!(settle(0, i64::MAX, 1), Err(AccountError::Overflow));
    assert_eq!(settle(i64::MIN + 1, i64::MAX - 1, 1), Ok((i64::MIN, i64::MAX)));
    assert_eq!(settle(0, 0, i64::MIN), Err(AccountError::Overflow));
}

#[test]
fn stripe_level_transfers() {
    let mut one = Bucket::new();
    assert!(one.insert(2, 20));
    assert!(one.insert(6, 60));
    assert_eq!(transfer_within(&mut one, 6, 2, 15), Ok(()));
    assert_eq!(one.as_slice(), &[(2, 35), (6, 45)]);
    assert_eq!(transfer_within(&mut one, 6, 10, 15), Err(AccountError::DoesNotExist));
    assert_eq!(one.as_slice(), &[(2, 35), (6, 45)]);
    let mut other = Bucket::new();
    assert!(other.insert(3, 0));
    assert_eq!(transfer_across(&mut one, &mut other, 2, 3, 35), Ok(()));
    assert_eq!(balance_in(&one, 2), Some(0));
    assert_eq!(balance_in(&other, 3), Some(35));
    assert_eq!(transfer_across(&mut other, &mut one, 3, 7, 1), Err(AccountError::DoesNotExist));
    assert_eq!(transfer_across(&mut other, &mut one, 7, 2, 1), Err(AccountError::DoesNotExist));
    assert_eq!(balance_in(&other, 3), Some(35));
    assert_eq!(balance_in(&one, 7), None);
}

#[test]
fn shared_ledger_has_exactly_the_accounts_added() {
    let mut shared = Accounts::new(3);
    for id in [7usize, 1, 4, 9, 2] {
        assert_eq!(shared.balance(id), None);
        shared.add_account(id, id as i64 * 10);
        assert_eq!(shared.balance(id), Some(id as i64 * 10));
    }
    for id in [0usize, 3, 5, 6, 8, 10] {
        assert_eq!(shared.balance(id), None);
    }
    assert_eq!(shared.stripe_count(), 3);
    assert_eq!(shared.sum_up_all_accounts(), 230);
    assert_eq!(shared.transfer(7, 1, 5), Ok(()));
    assert_eq!(shared.transfer(7, 0, 5), Err(AccountError::DoesNotExist));
    assert_eq!(shared.transfer(3, 4, 5), Err(AccountError::DoesNotExist));
    assert_eq!(shared.balance(4), Some(40));
    assert_eq!(shared.balance(7), Some(65));
    assert_eq!(shared.balance(1), Some(15));
    assert_eq!(shared.sum_up_all_accounts(), 230);
}

#[test]
fn shared_ledger_takes_accounts_after_transfers() {
    let mut shared = Accounts::populated(4, 8, 100);
    assert_eq!(shared.transfer(0, 5, 30), Ok(()));
    assert_eq!(shared.transfer(0, 8, 30), Err(AccountError::DoesNotExist));
    shared.add_account(8, 0);
    assert_eq!(shared.transfer(0, 8, 30), Ok(()));
    assert_eq!(shared.balance(0), Some(40));
    assert_eq!(shared.balance(8), Some(30));
    assert_eq!(shared.sum_up_all_accounts(), 800);
}

#[test]
fn shared_ledger_reports_overflow_only_between_its_accounts() {
    let mut shared = Accounts::new(2);
    shared.add_account(0, i64::MAX);
    shared.add_account(1, 1);
    assert_eq!(shared.transfer(1, 0, 1), Err(AccountError::Overflow));
    assert_eq!(shared.transfer(1, 2, 1), Err(AccountError::DoesNotExist));
    assert_eq!(shared.transfer(0, 1, 1), Ok(()));
    assert_eq!(shared.balance(0), Some(i64::MAX - 1));
    assert_eq!(shared.balance(1), Some(2));
}

#[test]
fn transfer_of_nothing_succeeds_at_the_extremes() {
    let mut shared = Accounts::new(2);
    shared.add_account(0, i64::MAX);
    shared.add_account(1, i64::MIN);
    shared.add_account(2, i64::MIN);
    assert_eq!(shared.transfer(0, 1, 0), Ok(()));
    assert_eq!(shared.transfer(1, 0, 0), Ok(()));
    assert_eq!(shared.transfer(2, 0, 0), Ok(()));
    assert_eq!(shared.balance(0), Some(i64::MAX));
    assert_eq!(shared.balance(1), Some(i64::MIN));
    assert_eq!(
        shared.sum_up_all_accounts(),
        i64::MAX as i128 + 2 * (i64::MIN as i128)
    );
}

#[test]
fn shared_ledger_without_accounts_sums_to_zero() {
    let shared = Accounts::populated(5, 0, 77);
    assert_eq!(shared.sum_up_all_accounts(), 0);
    assert_eq!(shared.balance(0), None);
    assert_eq!(shared.transfer(0, 1, 0), Err(AccountError::DoesNotExist));
}
