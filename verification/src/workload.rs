//! Splitting a run of commands among workers.

use vstd::prelude::*;

verus! {

/// Where the share of worker `worker` starts when `command_count` commands
/// are split among `thread_count` workers: every worker gets the quotient,
/// and each of the first `command_count % thread_count` workers one more.
pub open spec fn slice_start(command_count: nat, thread_count: nat, worker: nat) -> nat {
    let spare = command_count % thread_count;
    worker * (command_count / thread_count) + if worker < spare {
        worker
    } else {
        spare
    }
}

/// The shares lie side by side from the first command to the last, and the
/// share of a worker has the quotient's size, or one more for the first
/// `command_count % thread_count` workers.
pub proof fn lemma_slices_cover(command_count: nat, thread_count: nat, worker: nat)
    requires
        thread_count > 0,
        worker < thread_count,
    ensures
        slice_start(command_count, thread_count, 0) == 0,
        slice_start(command_count, thread_count, thread_count) == command_count,
        slice_start(command_count, thread_count, worker + 1) == slice_start(
            command_count,
            thread_count,
            worker,
        ) + command_count / thread_count + if worker < command_count % thread_count {
            1nat
        } else {
            0nat
        },
        slice_start(command_count, thread_count, worker + 1) <= command_count,
{
    let base = command_count / thread_count;
    let spare = command_count % thread_count;
    assert(command_count == thread_count * base + spare) by (nonlinear_arith)
        requires
            thread_count > 0,
            base == command_count / thread_count,
            spare == command_count % thread_count,
    ;
    assert((worker + 1) * base == worker * base + base) by (nonlinear_arith);
    assert((worker + 1) * base <= thread_count * base) by (nonlinear_arith)
        requires
            worker + 1 <= thread_count,
    ;
    assert(0 * base == 0);
}

/// Splits `command_count` commands among `thread_count` workers: the share
/// of each worker as the half-open range of positions that it runs.
pub fn partition(command_count: usize, thread_count: usize) -> (slices: Vec<(usize, usize)>)
    requires
        thread_count > 0,
    ensures
        slices@.len() == thread_count,
        forall|worker: int|
            0 <= worker < thread_count ==> (#[trigger] slices@[worker]).0 == slice_start(
                command_count as nat,
                thread_count as nat,
                worker as nat,
            ) && slices@[worker].1 == slice_start(
                command_count as nat,
                thread_count as nat,
                (worker + 1) as nat,
            ),
{
    let base: usize = command_count / thread_count;
    let mut spare: usize = command_count % thread_count;
    let mut slices: Vec<(usize, usize)> = Vec::new();
    let mut begin: usize = 0;
    proof {
        lemma_slices_cover(command_count as nat, thread_count as nat, 0);
    }
    while slices.len() < thread_count
        invariant
            thread_count > 0,
            base == command_count / thread_count,
            slices@.len() <= thread_count,
            slices@.len() + spare == command_count % thread_count || (spare == 0 && slices@.len()
                >= command_count % thread_count),
            begin == slice_start(command_count as nat, thread_count as nat, slices@.len()),
            forall|worker: int|
                0 <= worker < slices@.len() ==> (#[trigger] slices@[worker]).0 == slice_start(
                    command_count as nat,
                    thread_count as nat,
                    worker as nat,
                ) && slices@[worker].1 == slice_start(
                    command_count as nat,
                    thread_count as nat,
                    (worker + 1) as nat,
                ),
        decreases thread_count - slices@.len(),
    {
        proof {
            lemma_slices_cover(command_count as nat, thread_count as nat, slices@.len());
        }
        let mut end: usize = begin + base;
        if spare > 0 {
            end = end + 1;
            spare = spare - 1;
        }
        slices.push((begin, end));
        begin = end;
    }
    slices
}

} // verus!
