//! Commands against a ledger, and what a run of them comes to.

use crate::concurrent::Accounts;
use crate::sequential::AccountsSeq;
use crate::stripe::{after_transfer, total, transfer_result, AccountError, Stripes};
use vstd::prelude::*;

verus! {

/// One step of a workload.
#[derive(Debug, Clone, Copy, PartialEq, Eq)]
pub enum Command {
    /// Move `amount` from account `from` to account `to`.
    Transfer { from: usize, to: usize, amount: i64 },
    /// Report the sum of all balances.
    CheckTotalBalance,
}

/// What `command` answers in the state `stripes`.
pub open spec fn command_result(stripes: Stripes, command: Command) -> Result<(), AccountError> {
    match command {
        Command::Transfer { from, to, amount } => transfer_result(stripes, from, to, amount),
        Command::CheckTotalBalance => Ok(()),
    }
}

/// The state that `command` leaves.
pub open spec fn after_command(stripes: Stripes, command: Command) -> Stripes {
    match command {
        Command::Transfer { from, to, amount } => after_transfer(stripes, from, to, amount),
        Command::CheckTotalBalance => stripes,
    }
}

/// The totals that `command` reports in the state `stripes`.
pub open spec fn command_totals(stripes: Stripes, command: Command) -> Seq<int> {
    match command {
        Command::Transfer { .. } => Seq::empty(),
        Command::CheckTotalBalance => seq![total(stripes)],
    }
}

/// The error that stops a run of `commands` from the state `stripes`: that
/// of the first command that is refused, if one is.
pub open spec fn run_error(stripes: Stripes, commands: Seq<Command>) -> Option<AccountError>
    decreases commands.len(),
{
    if commands.len() == 0 {
        None
    } else {
        match command_result(stripes, commands[0]) {
            Err(error) => Some(error),
            Ok(_) => run_error(after_command(stripes, commands[0]), commands.skip(1)),
        }
    }
}

/// The state in which a run of `commands` from the state `stripes` ends: all
/// commands before the first refused one have taken effect.
pub open spec fn run_state(stripes: Stripes, commands: Seq<Command>) -> Stripes
    decreases commands.len(),
{
    if commands.len() == 0 {
        stripes
    } else {
        match command_result(stripes, commands[0]) {
            Err(_) => stripes,
            Ok(_) => run_state(after_command(stripes, commands[0]), commands.skip(1)),
        }
    }
}

/// The totals that a run of `commands` from the state `stripes` reports, in
/// order, up to the first refused command.
pub open spec fn run_totals(stripes: Stripes, commands: Seq<Command>) -> Seq<int>
    decreases commands.len(),
{
    if commands.len() == 0 {
        Seq::empty()
    } else {
        match command_result(stripes, commands[0]) {
            Err(_) => Seq::empty(),
            Ok(_) => command_totals(stripes, commands[0]) + run_totals(
                after_command(stripes, commands[0]),
                commands.skip(1),
            ),
        }
    }
}

/// The number of `CheckTotalBalance` commands among `commands`.
pub open spec fn checks(commands: Seq<Command>) -> nat
    decreases commands.len(),
{
    if commands.len() == 0 {
        0
    } else {
        checks(commands.drop_last()) + if commands.last() is CheckTotalBalance {
            1nat
        } else {
            0nat
        }
    }
}

/// The balances in `totals`, as integers.
pub open spec fn as_ints(totals: Seq<i128>) -> Seq<int> {
    totals.map_values(|t: i128| t as int)
}

/// Runs `commands` in order on a ledger of one thread and stops at the first
/// that is refused. Returns the totals reported until then, and the refusal
/// if there was one.
pub fn do_work_seq(accounts: &mut AccountsSeq, commands: &[Command]) -> (report: (
    Vec<i128>,
    Result<(), AccountError>,
))
    requires
        old(accounts).wf(),
    ensures
        final(accounts).wf(),
        final(accounts)@ == run_state(old(accounts)@, commands@),
        as_ints(report.0@) == run_totals(old(accounts)@, commands@),
        report.1 == match run_error(old(accounts)@, commands@) {
            Some(error) => Err::<(), AccountError>(error),
            None => Ok(()),
        },
{
    let mut totals: Vec<i128> = Vec::new();
    let mut next: usize = 0;
    proof {
        assert(commands@.skip(0) =~= commands@);
        assert(as_ints(totals@) + run_totals(accounts@, commands@) =~= run_totals(
            accounts@,
            commands@,
        ));
    }
    while next < commands.len()
        invariant
            accounts.wf(),
            next <= commands@.len(),
            run_state(accounts@, commands@.skip(next as int)) == run_state(
                old(accounts)@,
                commands@,
            ),
            run_error(accounts@, commands@.skip(next as int)) == run_error(
                old(accounts)@,
                commands@,
            ),
            as_ints(totals@) + run_totals(accounts@, commands@.skip(next as int)) == run_totals(
                old(accounts)@,
                commands@,
            ),
        decreases commands@.len() - next,
    {
        let ghost rest = commands@.skip(next as int);
        let ghost before = accounts@;
        let ghost reported = as_ints(totals@);
        proof {
            assert(rest[0] == commands@[next as int]);
            assert(rest.skip(1) =~= commands@.skip(next + 1));
        }
        match commands[next] {
            Command::Transfer { from, to, amount } => {
                match accounts.transfer(from, to, amount) {
                    Ok(_) => {
                        assert(reported + run_totals(before, rest) =~= reported + run_totals(
                            accounts@,
                            rest.skip(1),
                        ));
                    },
                    Err(error) => {
                        assert(reported + run_totals(before, rest) =~= reported);
                        return (totals, Err(error));
                    },
                }
            },
            Command::CheckTotalBalance => {
                let sum = accounts.sum_up_all_accounts();
                totals.push(sum);
                assert(as_ints(totals@) =~= reported.push(sum as int));
                assert(reported + run_totals(before, rest) =~= reported.push(sum as int)
                    + run_totals(before, rest.skip(1)));
            },
        }
        next = next + 1;
    }
    proof {
        assert(commands@.skip(next as int).len() == 0);
        assert(as_ints(totals@) + Seq::<int>::empty() =~= as_ints(totals@));
    }
    (totals, Ok(()))
}

/// `command` moves money between two different accounts, so that its
/// outcome on a shared ledger depends on the balances of the moment.
pub open spec fn moves(command: Command) -> bool {
    match command {
        Command::Transfer { from, to, .. } => from != to,
        Command::CheckTotalBalance => false,
    }
}

/// `command` is a transfer between two different accounts of which
/// `accounts` lacks one.
pub open spec fn lacks(accounts: &Accounts, command: Command) -> bool {
    match command {
        Command::Transfer { from, to, .. } => from != to && !(accounts.has_account(from)
            && accounts.has_account(to)),
        Command::CheckTotalBalance => false,
    }
}

/// `sum` is the total of a state that `accounts` can be in.
pub open spec fn possible_total(accounts: &Accounts, sum: i128) -> bool {
    exists|snapshot: Stripes| #[trigger] accounts.holds(snapshot) && sum == total(snapshot)
}

/// Runs `commands` in order on a shared ledger and stops at the first that
/// is refused. Returns the totals seen until then, and the refusal if there
/// was one.
///
/// A run without a transfer between two different accounts is never
/// refused. A run that succeeds has met no command that names an account
/// which the ledger lacks; a run that meets such a command before any
/// other transfer between two different accounts is refused with
/// `DoesNotExist`. A refused run has stopped at a transfer between two
/// different accounts, with the totals of the checks before it, and its
/// refusal is `DoesNotExist` exactly if that transfer names a missing
/// account. Every total is that of a state that the ledger can be in.
/// Whether a transfer between two accounts of the ledger overflows depends
/// on the balances of the moment, hence on what the other threads do.
pub fn do_work(accounts: &Accounts, commands: &[Command]) -> (report: (
    Vec<i128>,
    Result<(), AccountError>,
))
    requires
        accounts.wf(),
    ensures
        report.0@.len() <= checks(commands@),
        report.1 is Ok ==> report.0@.len() == checks(commands@),
        (forall|i: int| 0 <= i < commands@.len() ==> !moves(#[trigger] commands@[i]))
            ==> report.1 is Ok,
        report.1 == Err::<(), AccountError>(AccountError::DoesNotExist) ==> exists|i: int|
            0 <= i < commands@.len() && lacks(accounts, #[trigger] commands@[i]),
        (forall|i: int| 0 <= i < commands@.len() ==> !lacks(accounts, #[trigger] commands@[i]))
            ==> report.1 is Ok || report.1 == Err::<(), AccountError>(AccountError::Overflow),
        forall|i: int|
            0 <= i < report.0@.len() ==> possible_total(accounts, #[trigger] report.0@[i]),
        report.1 is Ok ==> forall|i: int|
            0 <= i < commands@.len() ==> !lacks(accounts, #[trigger] commands@[i]),
        (exists|i: int|
            0 <= i < commands@.len() && lacks(accounts, #[trigger] commands@[i]) && forall|j: int|
                0 <= j < i ==> !moves(#[trigger] commands@[j])) ==> report.1 == Err::<
            (),
            AccountError,
        >(AccountError::DoesNotExist),
        report.1 is Err ==> exists|k: int|
            0 <= k < commands@.len() && moves(#[trigger] commands@[k]) && report.0@.len()
                == checks(commands@.take(k)) && (forall|j: int|
                0 <= j < k ==> !lacks(accounts, #[trigger] commands@[j])) && (report.1 == Err::<
                (),
                AccountError,
            >(AccountError::DoesNotExist) <==> lacks(accounts, commands@[k])),
{
    let mut totals: Vec<i128> = Vec::new();
    let mut next: usize = 0;
    while next < commands.len()
        invariant
            accounts.wf(),
            next <= commands@.len(),
            totals@.len() == checks(commands@.take(next as int)),
            forall|i: int| 0 <= i < next ==> !lacks(accounts, #[trigger] commands@[i]),
            forall|i: int|
                0 <= i < totals@.len() ==> possible_total(accounts, #[trigger] totals@[i]),
        decreases commands@.len() - next,
    {
        proof {
            assert(commands@.take(next + 1).drop_last() =~= commands@.take(next as int));
            lemma_checks_grow(commands@, next + 1);
        }
        match commands[next] {
            Command::Transfer { from, to, amount } => {
                match accounts.transfer(from, to, amount) {
                    Ok(_) => {},
                    Err(error) => {
                        proof {
                            lemma_checks_grow(commands@, next as int);
                            assert(moves(commands@[next as int]));
                            assert(error == AccountError::DoesNotExist <==> lacks(
                                accounts,
                                commands@[next as int],
                            ));
                            assert forall|i: int|
                                0 <= i < commands@.len() && lacks(accounts, #[trigger] commands@[i])
                                    && (forall|j: int|
                                    0 <= j < i ==> !moves(#[trigger] commands@[j])) implies i
                                == next by {
                                if i > next {
                                    assert(!moves(commands@[next as int]));
                                }
                            }
                        }
                        return (totals, Err(error));
                    },
                }
            },
            Command::CheckTotalBalance => {
                let sum = accounts.sum_up_all_accounts();
                assert(possible_total(accounts, sum));
                totals.push(sum);
            },
        }
        next = next + 1;
    }
    proof {
        assert(commands@.take(next as int) =~= commands@);
    }
    (totals, Ok(()))
}

/// A prefix holds no more checks than the whole.
pub proof fn lemma_checks_grow(commands: Seq<Command>, upto: int)
    requires
        0 <= upto <= commands.len(),
    ensures
        checks(commands.take(upto)) <= checks(commands),
    decreases commands.len() - upto,
{
    if upto < commands.len() {
        assert(commands.take(upto + 1).drop_last() =~= commands.take(upto));
        lemma_checks_grow(commands, upto + 1);
    } else {
        assert(commands.take(upto) =~= commands);
    }
}

} // verus!
