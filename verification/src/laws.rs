//! What holds of every ledger and of every run of commands, proved over the
//! model that the contracts of the two ledgers speak of.

use crate::command::{
    after_command, command_result, command_totals, run_error, run_state, run_totals, Command,
};
use crate::stripe::{
    account_count, after_transfer, balance_of, fits, lemma_with_balance, moved, stripes_wf,
    total, transfer_result, with_balance, AccountError, Stripes,
};
use vstd::prelude::*;

verus! {

/// One transfer, whether it succeeds or is refused, keeps the ledger's
/// invariant, the number of stripes, the set of accounts and the sum of all
/// balances.
pub proof fn lemma_transfer_conserves(stripes: Stripes, from: usize, to: usize, amount: i64)
    requires
        stripes_wf(stripes),
    ensures
        stripes_wf(after_transfer(stripes, from, to, amount)),
        after_transfer(stripes, from, to, amount).len() == stripes.len(),
        total(after_transfer(stripes, from, to, amount)) == total(stripes),
        account_count(after_transfer(stripes, from, to, amount)) == account_count(stripes),
        forall|id: usize|
            balance_of(after_transfer(stripes, from, to, amount), id) is Some <==> balance_of(
                stripes,
                id,
            ) is Some,
{
    if from != to {
        match moved(balance_of(stripes, from), balance_of(stripes, to), amount) {
            Ok((debited, credited)) => {
                let debit_done = with_balance(stripes, from, debited);
                lemma_with_balance(stripes, from, debited);
                lemma_with_balance(debit_done, to, credited);
            },
            Err(_) => {},
        }
    }
}

/// A transfer that succeeds between two different accounts takes `amount`
/// from the one, gives it to the other, and leaves every third account as
/// it was.
pub proof fn lemma_transfer_moves(stripes: Stripes, from: usize, to: usize, amount: i64)
    requires
        stripes_wf(stripes),
        from != to,
        transfer_result(stripes, from, to, amount) is Ok,
    ensures
        balance_of(stripes, from) is Some,
        balance_of(stripes, to) is Some,
        balance_of(after_transfer(stripes, from, to, amount), from) is Some,
        balance_of(after_transfer(stripes, from, to, amount), to) is Some,
        balance_of(after_transfer(stripes, from, to, amount), from).unwrap() == balance_of(
            stripes,
            from,
        ).unwrap() - amount,
        balance_of(after_transfer(stripes, from, to, amount), to).unwrap() == balance_of(
            stripes,
            to,
        ).unwrap() + amount,
        forall|other: usize|
            other != from && other != to ==> balance_of(
                after_transfer(stripes, from, to, amount),
                other,
            ) == balance_of(stripes, other),
{
    match moved(balance_of(stripes, from), balance_of(stripes, to), amount) {
        Ok((debited, credited)) => {
            let debit_done = with_balance(stripes, from, debited);
            lemma_with_balance(stripes, from, debited);
            lemma_with_balance(debit_done, to, credited);
        },
        Err(_) => {},
    }
}

/// A transfer from an account to itself succeeds and changes nothing,
/// whether or not the account exists.
pub proof fn lemma_self_transfer_is_noop(stripes: Stripes, id: usize, amount: i64)
    ensures
        transfer_result(stripes, id, id, amount) == Ok::<(), AccountError>(()),
        after_transfer(stripes, id, id, amount) == stripes,
{
}

/// A transfer between two different accounts of which one was never added
/// is refused with `DoesNotExist` and changes nothing.
pub proof fn lemma_missing_account_is_refused(stripes: Stripes, from: usize, to: usize, amount: i64)
    requires
        from != to,
        balance_of(stripes, from) is None || balance_of(stripes, to) is None,
    ensures
        transfer_result(stripes, from, to, amount) == Err::<(), AccountError>(
            AccountError::DoesNotExist,
        ),
        after_transfer(stripes, from, to, amount) == stripes,
{
}

/// Which answer a transfer between two different accounts gets:
/// `DoesNotExist` exactly where one of them is absent, `Overflow` exactly
/// where both are there and one of the new balances cannot be held, and
/// success exactly where both are there and both new balances can be held.
pub proof fn lemma_transfer_answers(stripes: Stripes, from: usize, to: usize, amount: i64)
    requires
        from != to,
    ensures
        transfer_result(stripes, from, to, amount) == Err::<(), AccountError>(
            AccountError::DoesNotExist,
        ) <==> balance_of(stripes, from) is None || balance_of(stripes, to) is None,
        transfer_result(stripes, from, to, amount) == Err::<(), AccountError>(
            AccountError::Overflow,
        ) <==> {
            &&& balance_of(stripes, from) is Some
            &&& balance_of(stripes, to) is Some
            &&& !(fits(balance_of(stripes, from).unwrap() - amount) && fits(
                balance_of(stripes, to).unwrap() + amount,
            ))
        },
        transfer_result(stripes, from, to, amount) is Ok <==> {
            &&& balance_of(stripes, from) is Some
            &&& balance_of(stripes, to) is Some
            &&& fits(balance_of(stripes, from).unwrap() - amount)
            &&& fits(balance_of(stripes, to).unwrap() + amount)
        },
{
}

/// A refused transfer changes nothing, whatever the reason.
pub proof fn lemma_refused_transfer_changes_nothing(
    stripes: Stripes,
    from: usize,
    to: usize,
    amount: i64,
)
    requires
        transfer_result(stripes, from, to, amount) is Err,
    ensures
        after_transfer(stripes, from, to, amount) == stripes,
{
}

/// Conservation: a run of commands, in whatever order they come, keeps the
/// ledger's invariant and the sum of all balances, and every total that it
/// reports is that sum.
pub proof fn lemma_run_conserves(stripes: Stripes, commands: Seq<Command>)
    requires
        stripes_wf(stripes),
    ensures
        stripes_wf(run_state(stripes, commands)),
        run_state(stripes, commands).len() == stripes.len(),
        total(run_state(stripes, commands)) == total(stripes),
        forall|i: int|
            0 <= i < run_totals(stripes, commands).len() ==> run_totals(stripes, commands)[i]
                == total(stripes),
    decreases commands.len(),
{
    if commands.len() > 0 {
        match command_result(stripes, commands[0]) {
            Err(_) => {},
            Ok(_) => {
                let next = after_command(stripes, commands[0]);
                match commands[0] {
                    Command::Transfer { from, to, amount } => {
                        lemma_transfer_conserves(stripes, from, to, amount);
                    },
                    Command::CheckTotalBalance => {},
                }
                lemma_run_conserves(next, commands.skip(1));
                let head = command_totals(stripes, commands[0]);
                let tail = run_totals(next, commands.skip(1));
                assert forall|i: int| 0 <= i < (head + tail).len() implies (head + tail)[i]
                    == total(stripes) by {
                    if i >= head.len() {
                        assert((head + tail)[i] == tail[i - head.len()]);
                    }
                }
            },
        }
    }
}

/// How often `commands` moves `amount` from `from` to `to`, less how often
/// it moves `amount` from `to` to `from`.
pub open spec fn net_moves(commands: Seq<Command>, from: usize, to: usize, amount: i64) -> int
    decreases commands.len(),
{
    if commands.len() == 0 {
        0
    } else {
        net_moves(commands.skip(1), from, to, amount) + if commands[0] == (Command::Transfer {
            from,
            to,
            amount,
        }) {
            1int
        } else if commands[0] == (Command::Transfer { from: to, to: from, amount }) {
            -1int
        } else {
            0int
        }
    }
}

/// Every command of `commands` moves `amount` between `x` and `y`, one way
/// or the other.
pub open spec fn moves_between(commands: Seq<Command>, x: usize, y: usize, amount: i64) -> bool {
    forall|i: int|
        0 <= i < commands.len() ==> #[trigger] commands[i] == (Command::Transfer {
            from: x,
            to: y,
            amount,
        }) || commands[i] == (Command::Transfer { from: y, to: x, amount })
}

/// A run of transfers of one amount between `x` and `y`, none of them
/// refused, moves the net number of transfers times the amount, whatever
/// their order, and leaves every third account as it was.
pub proof fn lemma_run_between_two(
    stripes: Stripes,
    commands: Seq<Command>,
    x: usize,
    y: usize,
    amount: i64,
)
    requires
        stripes_wf(stripes),
        x != y,
        balance_of(stripes, x) is Some,
        balance_of(stripes, y) is Some,
        moves_between(commands, x, y, amount),
        run_error(stripes, commands) is None,
    ensures
        balance_of(run_state(stripes, commands), x) is Some,
        balance_of(run_state(stripes, commands), y) is Some,
        balance_of(run_state(stripes, commands), x).unwrap() == balance_of(stripes, x).unwrap()
            - net_moves(commands, x, y, amount) * amount,
        balance_of(run_state(stripes, commands), y).unwrap() == balance_of(stripes, y).unwrap()
            + net_moves(commands, x, y, amount) * amount,
        forall|other: usize|
            other != x && other != y ==> balance_of(run_state(stripes, commands), other)
                == balance_of(stripes, other),
    decreases commands.len(),
{
    if commands.len() > 0 {
        let first = commands[0];
        let rest = commands.skip(1);
        let next = after_command(stripes, first);
        assert(moves_between(rest, x, y, amount)) by {
            assert forall|i: int| 0 <= i < rest.len() implies #[trigger] rest[i]
                == (Command::Transfer { from: x, to: y, amount }) || rest[i]
                == (Command::Transfer { from: y, to: x, amount }) by {
                assert(rest[i] == commands[i + 1]);
            }
        }
        let net = net_moves(rest, x, y, amount);
        if first == (Command::Transfer { from: x, to: y, amount }) {
            lemma_transfer_conserves(stripes, x, y, amount);
            lemma_transfer_moves(stripes, x, y, amount);
            lemma_run_between_two(next, rest, x, y, amount);
            assert((net + 1) * amount == net * amount + amount) by (nonlinear_arith);
        } else {
            assert(first == (Command::Transfer { from: y, to: x, amount }));
            lemma_transfer_conserves(stripes, y, x, amount);
            lemma_transfer_moves(stripes, y, x, amount);
            lemma_run_between_two(next, rest, x, y, amount);
            assert((net - 1) * amount == net * amount - amount) by (nonlinear_arith);
        }
    }
}

/// No lost updates: as many transfers of one amount from `x` to `y` as from
/// `y` to `x`, none of them refused, leave every balance as it was, in
/// whatever order they were run.
pub proof fn lemma_no_lost_updates(
    stripes: Stripes,
    commands: Seq<Command>,
    x: usize,
    y: usize,
    amount: i64,
)
    requires
        stripes_wf(stripes),
        moves_between(commands, x, y, amount),
        net_moves(commands, x, y, amount) == 0,
        run_error(stripes, commands) is None,
    ensures
        forall|id: usize|
            balance_of(run_state(stripes, commands), id) == balance_of(stripes, id),
{
    if x == y {
        lemma_self_transfers_change_nothing(stripes, commands, x, amount);
    } else if commands.len() > 0 {
        let first = commands[0];
        assert(command_result(stripes, first) is Ok);
        assert(first == (Command::Transfer { from: x, to: y, amount }) || first == (
        Command::Transfer { from: y, to: x, amount }));
        lemma_run_between_two(stripes, commands, x, y, amount);
    }
}

/// A run of transfers from `x` to `x` leaves the state as it was.
pub proof fn lemma_self_transfers_change_nothing(
    stripes: Stripes,
    commands: Seq<Command>,
    x: usize,
    amount: i64,
)
    requires
        moves_between(commands, x, x, amount),
    ensures
        run_state(stripes, commands) == stripes,
    decreases commands.len(),
{
    if commands.len() > 0 {
        let rest = commands.skip(1);
        assert(commands[0] == (Command::Transfer { from: x, to: x, amount }));
        assert forall|i: int| 0 <= i < rest.len() implies #[trigger] rest[i]
            == (Command::Transfer { from: x, to: x, amount }) || rest[i] == (Command::Transfer {
            from: x,
            to: x,
            amount,
        }) by {
            assert(rest[i] == commands[i + 1]);
        }
        lemma_self_transfers_change_nothing(stripes, rest, x, amount);
    }
}

} // verus!
