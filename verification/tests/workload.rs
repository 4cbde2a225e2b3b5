use striped_ledger::command::{do_work, do_work_seq, Command};
use striped_ledger::concurrent::Accounts;
use striped_ledger::generate::{command_of, generate_commands, CHECK_ODDS};
use striped_ledger::sequential::AccountsSeq;
use striped_ledger::stripe::AccountError;
use striped_ledger::workload::partition;

fn transfer(from: usize, to: usize, amount: i64) -> Command {
    Command::Transfer { from, to, amount }
}

#[test]
fn partition_gives_the_spare_commands_to_the_first_workers() {
    assert_eq!(partition(10, 3), vec![(0, 4), (4, 7), (7, 10)]);
    assert_eq!(partition(11, 3), vec![(0, 4), (4, 8), (8, 11)]);
    assert_eq!(partition(12, 3), vec![(0, 4), (4, 8), (8, 12)]);
    assert_eq!(partition(1024, 1), vec![(0, 1024)]);
}

#[test]
fn partition_with_more_workers_than_commands() {
    assert_eq!(partition(2, 4), vec![(0, 1), (1, 2), (2, 2), (2, 2)]);
    assert_eq!(partition(0, 3), vec![(0, 0), (0, 0), (0, 0)]);
}

#[test]
fn partition_of_the_largest_count() {
    let slices = partition(usize::MAX, 2);
    assert_eq!(slices, vec![(0, usize::MAX / 2 + 1), (usize::MAX / 2 + 1, usize::MAX)]);
}

#[test]
fn partition_covers_every_command_once() {
    for commands in 0..40usize {
        for workers in 1..9usize {
            let slices = partition(commands, workers);
            assert_eq!(slices.len(), workers);
            assert_eq!(slices[0].0, 0);
            assert_eq!(slices[workers - 1].1, commands);
            for worker in 0..workers {
                let size = slices[worker].1 - slices[worker].0;
                let spare = if worker < commands % workers { 1 } else { 0 };
                assert_eq!(size, commands / workers + spare);
                if worker > 0 {
                    assert_eq!(slices[worker - 1].1, slices[worker].0);
                }
            }
        }
    }
}

#[test]
fn command_of_reads_kind_zero_as_a_check() {
    assert_eq!(command_of(0, 3, 4, 5), Command::CheckTotalBalance);
    assert_eq!(command_of(1, 3, 4, 5), transfer(3, 4, 5));
    assert_eq!(command_of(19, 0, 0, 0), transfer(0, 0, 0));
}

#[test]
fn generated_commands_stay_within_their_limits() {
    let commands = generate_commands(0, 16, 5000, 100);
    assert_eq!(commands.len(), 5000);
    let mut checks = 0;
    let mut seen = [false; 16];
    for command in &commands {
        match *command {
            Command::Transfer { from, to, amount } => {
                assert!(from < 16);
                assert!(to < 16);
                assert!((0..100).contains(&amount));
                seen[from] = true;
                seen[to] = true;
            }
            Command::CheckTotalBalance => checks += 1,
        }
    }
    assert!(checks > 0);
    assert!(checks < 5000 / CHECK_ODDS * 3);
    assert!(seen.iter().all(|hit| *hit));
}

#[test]
fn generated_commands_for_one_account_and_one_amount() {
    let commands = generate_commands(7, 1, 200, 1);
    assert_eq!(commands.len(), 200);
    for command in commands {
        assert!(command == Command::CheckTotalBalance || command == transfer(0, 0, 0));
    }
}

#[test]
fn generation_depends_on_the_seed_alone() {
    assert_eq!(generate_commands(0, 64, 300, 1000), generate_commands(0, 64, 300, 1000));
    assert_ne!(generate_commands(0, 64, 300, 1000), generate_commands(1, 64, 300, 1000));
    assert!(generate_commands(0, 64, 0, 1000).is_empty());
}

#[test]
fn sequential_run_reports_each_total() {
    let mut accounts = AccountsSeq::populated(4, 8, 100);
    let commands = [
        Command::CheckTotalBalance,
        transfer(0, 5, 30),
        transfer(5, 0, 10),
        Command::CheckTotalBalance,
        transfer(3, 3, 9),
    ];
    let (totals, outcome) = do_work_seq(&mut accounts, &commands);
    assert_eq!(outcome, Ok(()));
    assert_eq!(totals, vec![800, 800]);
    assert_eq!(accounts.balance(0), Some(80));
    assert_eq!(accounts.balance(5), Some(120));
}

#[test]
fn sequential_run_stops_at_the_first_refusal() {
    let mut accounts = AccountsSeq::populated(4, 8, 100);
    let commands = [
        transfer(0, 1, 10),
        Command::CheckTotalBalance,
        transfer(0, 8, 10),
        Command::CheckTotalBalance,
        transfer(0, 1, 10),
    ];
    let (totals, outcome) = do_work_seq(&mut accounts, &commands);
    assert_eq!(outcome, Err(AccountError::DoesNotExist));
    assert_eq!(totals, vec![800]);
    assert_eq!(accounts.balance(0), Some(90));
    assert_eq!(accounts.balance(1), Some(110));
}

#[test]
fn shared_run_reports_each_total() {
    let accounts = Accounts::populated(4, 8, 100);
    let commands = [
        transfer(0, 5, 30),
        Command::CheckTotalBalance,
        transfer(5, 0, 10),
        Command::CheckTotalBalance,
    ];
    let (totals, outcome) = do_work(&accounts, &commands);
    assert_eq!(outcome, Ok(()));
    assert_eq!(totals, vec![800, 800]);
    assert_eq!(accounts.balance(0), Some(80));
    assert_eq!(accounts.balance(5), Some(120));
    let (totals, outcome) = do_work(&accounts, &[Command::CheckTotalBalance, transfer(1, 9, 1)]);
    assert_eq!(outcome, Err(AccountError::DoesNotExist));
    assert_eq!(totals, vec![800]);
}

#[test]
fn empty_run_reports_nothing() {
    let mut accounts = AccountsSeq::populated(2, 2, 1);
    assert_eq!(do_work_seq(&mut accounts, &[]), (vec![], Ok(())));
    let shared = Accounts::populated(2, 2, 1);
    assert_eq!(do_work(&shared, &[]), (vec![], Ok(())));
}

#[test]
fn generated_workload_conserves_the_total_on_both_ledgers() {
    let commands = generate_commands(0, 128, 4000, 100);
    let mut accounts = AccountsSeq::populated(16, 128, 1000);
    let shared = Accounts::populated(16, 128, 1000);
    let (totals, outcome) = do_work_seq(&mut accounts, &commands);
    assert_eq!(outcome, Ok(()));
    assert!(totals.iter().all(|total| *total == 128_000));
    let slices = partition(commands.len(), 3);
    let mut seen = 0;
    for (begin, end) in slices {
        let (totals, outcome) = do_work(&shared, &commands[begin..end]);
        assert_eq!(outcome, Ok(()));
        assert!(totals.iter().all(|total| *total == 128_000));
        seen += end - begin;
    }
    assert_eq!(seen, 4000);
    assert_eq!(shared.sum_up_all_accounts(), 128_000);
    for id in 0..128 {
        assert_eq!(accounts.balance(id), shared.balance(id));
    }
}

#[test]
fn shared_run_without_moves_is_never_refused() {
    let accounts = Accounts::populated(4, 8, 100);
    let commands = [
        Command::CheckTotalBalance,
        transfer(3, 3, 50),
        transfer(99, 99, i64::MAX),
        Command::CheckTotalBalance,
        transfer(0, 0, i64::MIN),
    ];
    let (totals, outcome) = do_work(&accounts, &commands);
    assert_eq!(outcome, Ok(()));
    assert_eq!(totals, vec![800, 800]);
    for id in 0..8 {
        assert_eq!(accounts.balance(id), Some(100));
    }
}

#[test]
fn shared_run_names_the_refusal_of_its_first_refused_command() {
    let accounts = Accounts::populated(2, 2, i64::MAX);
    let (totals, outcome) = do_work(
        &accounts,
        &[Command::CheckTotalBalance, transfer(0, 1, 1), transfer(0, 2, 1)],
    );
    assert_eq!(outcome, Err(AccountError::Overflow));
    assert_eq!(totals, vec![2 * (i64::MAX as i128)]);
    let (totals, outcome) = do_work(
        &accounts,
        &[transfer(0, 2, 1), transfer(0, 1, 1), Command::CheckTotalBalance],
    );
    assert_eq!(outcome, Err(AccountError::DoesNotExist));
    assert!(totals.is_empty());
    assert_eq!(accounts.balance(0), Some(i64::MAX));
    assert_eq!(accounts.balance(1), Some(i64::MAX));
}

#[test]
fn shared_run_is_refused_where_a_command_names_a_missing_account() {
    let accounts = Accounts::populated(4, 8, 100);
    let commands = [
        Command::CheckTotalBalance,
        transfer(2, 2, 5),
        Command::CheckTotalBalance,
        transfer(1, 8, 5),
        Command::CheckTotalBalance,
        transfer(1, 2, 5),
    ];
    let (totals, outcome) = do_work(&accounts, &commands);
    assert_eq!(outcome, Err(AccountError::DoesNotExist));
    assert_eq!(totals, vec![800, 800]);
    assert_eq!(accounts.balance(1), Some(100));
    assert_eq!(accounts.balance(2), Some(100));
    let (totals, outcome) = do_work(&accounts, &commands[..3]);
    assert_eq!(outcome, Ok(()));
    assert_eq!(totals, vec![800, 800]);
}
