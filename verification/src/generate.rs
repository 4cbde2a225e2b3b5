//! Random workloads from a seeded generator.

use crate::command::Command;
use rand::distributions::{Distribution, Uniform};
use rand::SeedableRng;
use rand_pcg::Pcg64;
use vstd::prelude::*;

verus! {

/// The generator `rand_pcg::Pcg64`, which is another name of
/// `rand_pcg::Lcg128Xsl64`. Its state is opaque here: a value of it is only
/// made by `seeded` and handed to `draw_below`.
#[verifier::external_type_specification]
#[verifier::external_body]
pub struct ExPcg64(rand_pcg::Lcg128Xsl64);

/// One command in `CHECK_ODDS` asks for the total; the others are transfers.
pub const CHECK_ODDS: usize = 20;

/// `command` names only accounts below `account_count` and moves a
/// non-negative amount below `amount_limit`.
pub open spec fn within(command: Command, account_count: usize, amount_limit: usize) -> bool {
    match command {
        Command::Transfer { from, to, amount } => {
            &&& from < account_count
            &&& to < account_count
            &&& 0 <= amount < amount_limit
        },
        Command::CheckTotalBalance => true,
    }
}

/// `Pcg64::seed_from_u64`: a generator whose stream is fixed by `seed`.
/// Nothing is claimed of the stream.
#[verifier::external_body]
fn seeded(seed: u64) -> Pcg64 {
    Pcg64::seed_from_u64(seed)
}

/// `Uniform::from(0..limit).sample(rng)`: a draw from the half-open range
/// from zero to `limit`. The range must not be empty, for which `Uniform`
/// panics; all that is claimed of the draw is that it lies in the range.
#[verifier::external_body]
fn draw_below(rng: &mut Pcg64, limit: usize) -> (drawn: usize)
    requires
        limit > 0,
    ensures
        drawn < limit,
{
    Uniform::from(0..limit).sample(rng)
}

/// The command that a draw of the kind and, for a transfer, of the two
/// accounts and the amount stand for: a kind of zero asks for the total.
pub fn command_of(kind: usize, from: usize, to: usize, amount: usize) -> (command: Command)
    requires
        amount <= i64::MAX,
    ensures
        command == if kind == 0 {
            Command::CheckTotalBalance
        } else {
            Command::Transfer { from, to, amount: amount as i64 }
        },
{
    if kind == 0 {
        Command::CheckTotalBalance
    } else {
        Command::Transfer { from, to, amount: amount as i64 }
    }
}

/// Draws `command_count` commands for a ledger with the accounts `0` to
/// `account_count - 1` from the generator seeded with `seed`. The kind of
/// each command is drawn first; the accounts and the amount are drawn only
/// for a transfer. The accounts of a transfer may coincide.
pub fn generate_commands(
    seed: u64,
    account_count: usize,
    command_count: usize,
    amount_limit: usize,
) -> (commands: Vec<Command>)
    requires
        account_count > 0,
        0 < amount_limit <= i64::MAX,
    ensures
        commands@.len() == command_count,
        forall|i: int|
            0 <= i < command_count ==> within(#[trigger] commands@[i], account_count, amount_limit),
{
    let mut rng = seeded(seed);
    let mut commands: Vec<Command> = Vec::new();
    while commands.len() < command_count
        invariant
            account_count > 0,
            0 < amount_limit <= i64::MAX,
            commands@.len() <= command_count,
            forall|i: int|
                0 <= i < commands@.len() ==> within(
                    #[trigger] commands@[i],
                    account_count,
                    amount_limit,
                ),
        decreases command_count - commands@.len(),
    {
        let kind: usize = draw_below(&mut rng, CHECK_ODDS);
        let command = if kind == 0 {
            command_of(kind, 0, 0, 0)
        } else {
            let from: usize = draw_below(&mut rng, account_count);
            let to: usize = draw_below(&mut rng, account_count);
            let amount: usize = draw_below(&mut rng, amount_limit);
            command_of(kind, from, to, amount)
        };
        commands.push(command);
    }
    commands
}

} // verus!
