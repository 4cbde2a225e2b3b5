//! Why the total of a ledger fits in 128 bits: ids are distinct machine words,
//! so there are at most `usize::MAX + 1` accounts of 64 bits each.

use crate::bucket::{has_key, index_of, strictly_increasing};
use crate::stripe::{account_count, entries_sum, stripe_of, stripes_wf, total, Entries, Stripes};
use vstd::prelude::*;
use vstd::set_lib::{lemma_int_range, lemma_len_subset, lemma_set_disjoint_lens, set_int_range};

verus! {

/// The ids of one stripe, as a set of integers.
pub open spec fn key_set(entries: Entries) -> Set<int> {
    Set::new(|x: int| 0 <= x <= usize::MAX && has_key(entries, x as usize))
}

/// The ids held by the first `upto` stripes.
pub open spec fn id_set(stripes: Stripes, upto: int) -> Set<int> {
    Set::new(
        |x: int|
            0 <= x <= usize::MAX && x % (stripes.len() as int) < upto && has_key(
                stripes[x % (stripes.len() as int)],
                x as usize,
            ),
    )
}

/// A sorted stripe has as many ids as entries.
pub proof fn lemma_key_set_len(entries: Entries)
    requires
        strictly_increasing(entries),
    ensures
        key_set(entries).finite(),
        key_set(entries).len() == entries.len(),
    decreases entries.len(),
{
    if entries.len() == 0 {
        assert(key_set(entries) =~= Set::<int>::empty());
    } else {
        let front = entries.drop_last();
        let last = entries.last().0;
        lemma_key_set_len(front);
        assert forall|x: int| key_set(entries).contains(x) <==> key_set(front).insert(
            last as int,
        ).contains(x) by {
            if key_set(entries).contains(x) && x != last {
                let i = index_of(entries, x as usize);
                assert(front[i].0 == x as usize);
            }
            if key_set(front).contains(x) {
                let i = index_of(front, x as usize);
                assert(entries[i].0 == x as usize);
            }
            if x == last {
                assert(entries[entries.len() - 1].0 == last);
            }
        }
        assert(key_set(entries) =~= key_set(front).insert(last as int));
        if key_set(front).contains(last as int) {
            let i = index_of(front, last);
            assert(entries[i].0 < entries[entries.len() - 1].0);
        }
    }
}

/// The first `upto` stripes hold as many ids as they have entries.
pub proof fn lemma_id_set_len(stripes: Stripes, upto: int)
    requires
        stripes_wf(stripes),
        0 <= upto <= stripes.len(),
    ensures
        id_set(stripes, upto).finite(),
        id_set(stripes, upto).len() == account_count(stripes.take(upto)),
    decreases upto,
{
    let count = stripes.len() as int;
    if upto == 0 {
        assert(id_set(stripes, upto) =~= Set::<int>::empty());
        assert(stripes.take(0).len() == 0);
    } else {
        let next = stripes[upto - 1];
        let before = id_set(stripes, upto - 1);
        let added = key_set(next);
        lemma_id_set_len(stripes, upto - 1);
        lemma_key_set_len(stripes[upto - 1]);
        assert forall|x: int| id_set(stripes, upto).contains(x) <==> (before + added).contains(
            x,
        ) by {
            if added.contains(x) {
                let i = index_of(next, x as usize);
                assert(stripe_of(next[i].0, stripes.len()) == upto - 1);
            }
        }
        assert(id_set(stripes, upto) =~= before + added);
        assert(before.disjoint(added)) by {
            assert forall|x: int| !(before.contains(x) && added.contains(x)) by {
                if added.contains(x) {
                    let i = index_of(next, x as usize);
                    assert(stripe_of(next[i].0, stripes.len()) == upto - 1);
                }
            }
        }
        lemma_set_disjoint_lens(before, added);
        assert(stripes.take(upto).drop_last() =~= stripes.take(upto - 1));
        assert(stripes.take(upto).last() == stripes[upto - 1]);
    }
}

/// The first `upto` stripes hold at most one account for each machine word.
pub proof fn lemma_account_count_bound(stripes: Stripes, upto: int)
    requires
        stripes_wf(stripes),
        0 <= upto <= stripes.len(),
    ensures
        0 <= account_count(stripes.take(upto)) <= usize::MAX + 1,
{
    lemma_id_set_len(stripes, upto);
    lemma_int_range(0, usize::MAX + 1);
    assert(id_set(stripes, upto).subset_of(set_int_range(0, usize::MAX + 1)));
    lemma_len_subset(id_set(stripes, upto), set_int_range(0, usize::MAX + 1));
}

/// The sum of a stripe lies between its length times the least and times the
/// greatest balance.
pub proof fn lemma_entries_sum_bounds(entries: Entries)
    ensures
        i64::MIN * entries.len() <= entries_sum(entries) <= i64::MAX * entries.len(),
    decreases entries.len(),
{
    if entries.len() > 0 {
        lemma_entries_sum_bounds(entries.drop_last());
    }
}

/// The total lies between the number of accounts times the least and times
/// the greatest balance.
pub proof fn lemma_total_bounds(stripes: Stripes)
    ensures
        account_count(stripes) >= 0,
        i64::MIN * account_count(stripes) <= total(stripes) <= i64::MAX * account_count(stripes),
    decreases stripes.len(),
{
    if stripes.len() > 0 {
        lemma_total_bounds(stripes.drop_last());
        lemma_entries_sum_bounds(stripes.last());
    }
}

/// The total of the first `upto` stripes and the first `within` entries of
/// the next fits in 128 bits.
pub proof fn lemma_partial_total_fits(stripes: Stripes, upto: int, within: int)
    requires
        stripes_wf(stripes),
        0 <= upto < stripes.len(),
        0 <= within <= stripes[upto].len(),
    ensures
        i128::MIN <= total(stripes.take(upto)) + entries_sum(stripes[upto].take(within))
            <= i128::MAX,
{
    lemma_account_count_bound(stripes, upto + 1);
    assert(stripes.take(upto + 1).drop_last() =~= stripes.take(upto));
    assert(stripes.take(upto + 1).last() == stripes[upto]);
    lemma_total_bounds(stripes.take(upto));
    lemma_entries_sum_bounds(stripes[upto].take(within));
    let seen = account_count(stripes.take(upto)) + within;
    assert(seen <= usize::MAX + 1);
    assert(usize::MAX + 1 <= 0x1_0000_0000_0000_0000);
    assert(i64::MIN * seen <= total(stripes.take(upto)) + entries_sum(
        stripes[upto].take(within),
    ) <= i64::MAX * seen);
}

} // verus!
